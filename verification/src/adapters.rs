//! Filesystem access behind a trait, so the pipeline can be driven by the
//! real disk or by an in-memory fake.
//!
//! The trait's contracts speak of two ghost observations: the readable
//! files — a map from path to contents — and the listing a root yields.
//! Reading never changes either; writing updates the file map, and keeps
//! the listing when the path already existed.

use vstd::pervasive::VecAdditionalExecFns;
use vstd::prelude::*;

use crate::text::{eq_chars, string_to_chars};

verus! {

/// Why a filesystem operation failed.
#[derive(Debug, Clone, Copy, PartialEq, Eq, Structural)]
pub enum FsError {
    NotFound,
    WriteFailed,
}

/// The file map an association list holds, later entries shadowing
/// earlier ones.
pub open spec fn map_view(entries: Seq<(String, String)>) -> Map<Seq<char>, Seq<char>>
    decreases entries.len(),
{
    if entries.len() == 0 {
        Map::empty()
    } else {
        map_view(entries.drop_last()).insert(entries.last().0@, entries.last().1@)
    }
}

/// A key is in the map exactly when some entry carries it.
pub proof fn lemma_map_view_contains(entries: Seq<(String, String)>, k: Seq<char>)
    ensures
        map_view(entries).contains_key(k) <==> exists|i: int|
            0 <= i < entries.len() && #[trigger] entries[i].0@ == k,
    decreases entries.len(),
{
    if entries.len() > 0 {
        let dl = entries.drop_last();
        lemma_map_view_contains(dl, k);
        assert(forall|j: int| 0 <= j < dl.len() ==> #[trigger] dl[j] == entries[j]);
        if entries.last().0@ == k {
            assert(entries[entries.len() - 1].0@ == k);
        } else if map_view(entries).contains_key(k) {
            let i = choose|i: int| 0 <= i < dl.len() && #[trigger] dl[i].0@ == k;
            assert(entries[i].0@ == k);
        } else {
            if exists|i: int| 0 <= i < entries.len() && #[trigger] entries[i].0@ == k {
                let i = choose|i: int|
                    0 <= i < entries.len() && #[trigger] entries[i].0@ == k;
                assert(dl[i].0@ == k);
                assert(false);
            }
        }
    }
}

/// The value of a key is the value of its last entry.
pub proof fn lemma_map_view_last(entries: Seq<(String, String)>, j: int)
    requires
        0 <= j < entries.len(),
        forall|i: int| j < i < entries.len() ==> #[trigger] entries[i].0@ != entries[j].0@,
    ensures
        map_view(entries).contains_key(entries[j].0@),
        map_view(entries)[entries[j].0@] == entries[j].1@,
    decreases entries.len(),
{
    let dl = entries.drop_last();
    assert(forall|i: int| 0 <= i < dl.len() ==> #[trigger] dl[i] == entries[i]);
    if j == entries.len() - 1 {
    } else {
        lemma_map_view_last(dl, j);
    }
}

/// Replacing a key's last entry with one carrying the same key is
/// inserting into the map.
pub proof fn lemma_map_view_update(entries: Seq<(String, String)>, j: int, e: (String, String))
    requires
        0 <= j < entries.len(),
        e.0@ == entries[j].0@,
        forall|i: int| j < i < entries.len() ==> #[trigger] entries[i].0@ != entries[j].0@,
    ensures
        map_view(entries.update(j, e)) == map_view(entries).insert(e.0@, e.1@),
    decreases entries.len(),
{
    let upd = entries.update(j, e);
    let dl = entries.drop_last();
    assert(forall|i: int| 0 <= i < dl.len() ==> #[trigger] dl[i] == entries[i]);
    if j == entries.len() - 1 {
        assert(upd.drop_last() =~= dl);
        assert(upd.last() == e);
        assert(map_view(upd) =~= map_view(entries).insert(e.0@, e.1@));
    } else {
        lemma_map_view_update(dl, j, e);
        assert(upd.drop_last() =~= dl.update(j, e));
        assert(upd.last() == entries.last());
        assert(map_view(upd) == map_view(dl.update(j, e)).insert(
            entries.last().0@,
            entries.last().1@,
        ));
        assert(map_view(upd) =~= map_view(entries).insert(e.0@, e.1@));
    }
}

/// An in-memory file table: an association list from path to contents.
#[derive(Debug)]
pub struct StrMap {
    pub entries: Vec<(String, String)>,
}

impl StrMap {
    /// The file map this table holds.
    pub open spec fn view_map(&self) -> Map<Seq<char>, Seq<char>> {
        map_view(self.entries@)
    }

    /// The keys, in stored order.
    pub open spec fn keys_in_order(&self) -> Seq<Seq<char>> {
        self.entries@.map_values(|e: (String, String)| e.0@)
    }

    /// An empty table.
    pub fn new() -> (r: StrMap)
        ensures
            r.view_map() == Map::<Seq<char>, Seq<char>>::empty(),
            r.keys_in_order() == Seq::<Seq<char>>::empty(),
    {
        let r = StrMap { entries: Vec::new() };
        proof {
            assert(r.keys_in_order() =~= Seq::<Seq<char>>::empty());
        }
        r
    }

    /// The index of the last entry with this key, if the key is present.
    fn find_last(&self, key: &Vec<char>) -> (r: Option<usize>)
        ensures
            match r {
                Some(j) => 0 <= j < self.entries@.len() && self.entries@[j as int].0@ == key@
                    && forall|i: int|
                    j < i < self.entries@.len() ==> #[trigger] self.entries@[i].0@ != key@,
                None => forall|i: int|
                    0 <= i < self.entries@.len() ==> #[trigger] self.entries@[i].0@ != key@,
            },
    {
        let mut j: usize = self.entries.len();
        while j > 0
            invariant
                j <= self.entries@.len(),
                forall|i: int|
                    j <= i < self.entries@.len() ==> #[trigger] self.entries@[i].0@ != key@,
            decreases j,
        {
            let name = string_to_chars(self.entries[j - 1].0.as_str());
            if eq_chars(&name, key) {
                return Some(j - 1);
            }
            j -= 1;
        }
        None
    }

    /// The contents under a path, if any.
    pub fn get(&self, key: &str) -> (r: Option<String>)
        ensures
            match r {
                Some(s) => self.view_map().contains_key(key@) && s@ == self.view_map()[key@],
                None => !self.view_map().contains_key(key@),
            },
    {
        let kc = string_to_chars(key);
        match self.find_last(&kc) {
            Some(j) => {
                proof {
                    lemma_map_view_last(self.entries@, j as int);
                }
                Some(self.entries[j].1.clone())
            },
            None => {
                proof {
                    lemma_map_view_contains(self.entries@, key@);
                }
                None
            },
        }
    }

    /// Stores contents under a path: replaces the value in place when the
    /// path exists, else appends a new entry.
    pub fn insert(&mut self, key: String, value: String)
        ensures
            final(self).view_map() == old(self).view_map().insert(key@, value@),
            old(self).view_map().contains_key(key@) ==> final(self).keys_in_order() == old(
                self,
            ).keys_in_order(),
            !old(self).view_map().contains_key(key@) ==> final(self).keys_in_order() == old(
                self,
            ).keys_in_order().push(key@),
    {
        let kc = string_to_chars(key.as_str());
        proof {
            lemma_map_view_contains(self.entries@, key@);
        }
        match self.find_last(&kc) {
            Some(j) => {
                let ghost entries0 = self.entries@;
                let ghost kview = key@;
                let ghost vview = value@;
                self.entries.set(j, (key, value));
                proof {
                    lemma_map_view_update(entries0, j as int, self.entries@[j as int]);
                    assert(self.view_map() =~= old(self).view_map().insert(kview, vview));
                    assert(final(self).keys_in_order() =~= old(self).keys_in_order());
                }
            },
            None => {
                let ghost entries0 = self.entries@;
                self.entries.push((key, value));
                proof {
                    assert(self.entries@.drop_last() =~= entries0);
                    assert(final(self).keys_in_order() =~= old(self).keys_in_order().push(
                        self.entries@.last().0@,
                    ));
                }
            },
        }
    }
}

/// What the pipeline asks of a filesystem.
pub trait FileSystem {
    /// The readable files: path to contents.
    open spec fn files(&self) -> Map<Seq<char>, Seq<char>> {
        Map::empty()
    }

    /// The entries a scan of `root` yields.
    open spec fn listing(&self, root: Seq<char>) -> Seq<Seq<char>> {
        Seq::empty()
    }

    /// Lists every entry beneath `root`.
    fn list_files(&mut self, path: &str) -> (r: Vec<String>)
        ensures
            final(self).files() == old(self).files(),
            forall|rt: Seq<char>| final(self).listing(rt) == old(self).listing(rt),
            r@.map_values(|s: String| s@) == old(self).listing(path@),
    ;

    /// Reads a file's text.
    fn read_to_string(&mut self, path: &str) -> (r: Result<String, FsError>)
        ensures
            final(self).files() == old(self).files(),
            forall|rt: Seq<char>| final(self).listing(rt) == old(self).listing(rt),
            match r {
                Ok(s) => old(self).files().contains_key(path@) && s@ == old(self).files()[path@],
                Err(_) => !old(self).files().contains_key(path@),
            },
    ;

    /// Overwrites a file with the given text.
    fn write(&mut self, path: &str, contents: &str) -> (r: Result<(), FsError>)
        ensures
            r is Ok ==> final(self).files() == old(self).files().insert(path@, contents@),
            r is Ok && old(self).files().contains_key(path@) ==> forall|rt: Seq<char>|
                final(self).listing(rt) == old(self).listing(rt),
            r is Err ==> final(self).files() == old(self).files() && forall|rt: Seq<char>|
                final(self).listing(rt) == old(self).listing(rt),
    ;
}

/// An in-memory filesystem that also logs the operations asked of it.
#[derive(Debug)]
pub struct FakeFileSystem {
    pub files: StrMap,
    pub operations: Vec<String>,
}

impl FakeFileSystem {
    /// A fake filesystem over the given file table.
    pub fn new(files: StrMap) -> (r: FakeFileSystem)
        ensures
            r.files() == files.view_map(),
            forall|rt: Seq<char>| #[trigger] r.listing(rt) == files.keys_in_order(),
            r.operations@.len() == 0,
    {
        FakeFileSystem { files, operations: Vec::new() }
    }
}

impl Default for FakeFileSystem {
    /// A fake filesystem with no files.
    fn default() -> (r: FakeFileSystem)
        ensures
            r.files() == Map::<Seq<char>, Seq<char>>::empty(),
            r.operations@.len() == 0,
    {
        FakeFileSystem::new(StrMap::new())
    }
}

impl FileSystem for FakeFileSystem {
    /// The file table's map.
    open spec fn files(&self) -> Map<Seq<char>, Seq<char>> {
        self.files.view_map()
    }

    /// Every stored path, whatever the root.
    open spec fn listing(&self, root: Seq<char>) -> Seq<Seq<char>> {
        self.files.keys_in_order()
    }

    /// Hands back every stored path.
    fn list_files(&mut self, path: &str) -> (r: Vec<String>)
        ensures
            final(self).files() == old(self).files(),
            forall|rt: Seq<char>| final(self).listing(rt) == old(self).listing(rt),
            r@.map_values(|s: String| s@) == old(self).listing(path@),
    {
        let mut r: Vec<String> = Vec::new();
        let mut i: usize = 0;
        proof {
            assert(r@.map_values(|s: String| s@) =~= self.files.keys_in_order().subrange(0, 0));
        }
        while i < self.files.entries.len()
            invariant
                i <= self.files.entries@.len(),
                self == old(self),
                r@.map_values(|s: String| s@) == self.files.keys_in_order().subrange(
                    0,
                    i as int,
                ),
            decreases self.files.entries@.len() - i,
        {
            let ghost before = r@.map_values(|s: String| s@);
            r.push(self.files.entries[i].0.clone());
            i += 1;
            proof {
                assert(r@.map_values(|s: String| s@) =~= before.push(
                    self.files.keys_in_order()[i - 1],
                ));
                assert(r@.map_values(|s: String| s@) =~= self.files.keys_in_order().subrange(
                    0,
                    i as int,
                ));
            }
        }
        proof {
            assert(self.files.keys_in_order().subrange(
                0,
                self.files.keys_in_order().len() as int,
            ) =~= self.files.keys_in_order());
        }
        r
    }

    /// Looks the path up in the table, logging the read.
    fn read_to_string(&mut self, path: &str) -> (r: Result<String, FsError>)
        ensures
            final(self).files() == old(self).files(),
            forall|rt: Seq<char>| final(self).listing(rt) == old(self).listing(rt),
            match r {
                Ok(s) => old(self).files().contains_key(path@) && s@ == old(self).files()[path@],
                Err(_) => !old(self).files().contains_key(path@),
            },
    {
        let mut op = String::new();
        op.append("read: `");
        op.append(path);
        op.append("`");
        self.operations.push(op);
        match self.files.get(path) {
            Some(s) => Ok(s),
            None => Err(FsError::NotFound),
        }
    }

    /// Stores the text under the path, logging the write.
    fn write(&mut self, path: &str, contents: &str) -> (r: Result<(), FsError>)
        ensures
            r is Ok ==> final(self).files() == old(self).files().insert(path@, contents@),
            r is Ok && old(self).files().contains_key(path@) ==> forall|rt: Seq<char>|
                final(self).listing(rt) == old(self).listing(rt),
            r is Err ==> final(self).files() == old(self).files() && forall|rt: Seq<char>|
                final(self).listing(rt) == old(self).listing(rt),
    {
        let mut op = String::new();
        op.append("write: `");
        op.append(path);
        op.append("`");
        self.operations.push(op);
        let key = path.to_owned();
        let value = contents.to_owned();
        self.files.insert(key, value);
        Ok(())
    }
}

} // verus!
