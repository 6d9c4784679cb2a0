//! A verified model of the backend's file state and its five operations.
//!
//! `FileStore` holds, as plain values, exactly what the operations read and
//! write: the set of directories that exist and a map from each file's path
//! to its text content. The five operations — directory listing and
//! whole-file create / read / update / delete — are implemented and proved
//! against this model, so their success conditions, failure kinds and state
//! changes are pinned down exactly. The surrounding application mirrors each
//! operation onto the operating system and converts outcomes at the edge.

use vstd::prelude::*;
use crate::errors::{FsError, FsErrorKind, not_found_msg, is_directory_msg, not_directory_msg,
    already_exists_msg};
use crate::listing::EntryFilter;
use crate::paths::{has_parent, parent_of, base_name_of, is_child, split_path, child_base};

verus! {

/// The mathematical state of the store: which directories exist, and what
/// content each file path holds.
pub struct StoreView {
    pub dirs: Set<Seq<char>>,
    pub files: Map<Seq<char>, Seq<char>>,
}

/// The directory paths a sequence of strings denotes, as a set.
pub open spec fn path_set(s: Seq<String>) -> Set<Seq<char>> {
    Set::new(|p: Seq<char>| exists|i: int| 0 <= i < s.len() && s[i]@ == p)
}

/// The path-to-content map a sequence of (path, content) pairs denotes.
pub open spec fn file_map(s: Seq<(String, String)>) -> Map<Seq<char>, Seq<char>> {
    Map::new(
        |p: Seq<char>| exists|i: int| 0 <= i < s.len() && s[i].0@ == p,
        |p: Seq<char>| s[choose|i: int| 0 <= i < s.len() && s[i].0@ == p].1@,
    )
}

/// No two strings of `s` denote the same path.
pub open spec fn unique_paths(s: Seq<String>) -> bool {
    forall|i: int, j: int| 0 <= i < j < s.len() ==> s[i]@ != s[j]@
}

/// No two pairs of `s` share a path.
pub open spec fn unique_keys(s: Seq<(String, String)>) -> bool {
    forall|i: int, j: int| 0 <= i < j < s.len() ==> s[i].0@ != s[j].0@
}

/// The in-memory store: existing directories and the files they hold.
///
/// The root directory is the empty path, so an absolute path such as
/// `"/tmp"` is a child of the root.
pub struct FileStore {
    pub dirs: Vec<String>,
    pub files: Vec<(String, String)>,
}

/// Whether creating a file at `p` can succeed: `p` must lie in an existing
/// directory, and no directory may already occupy `p` itself.
pub open spec fn create_file_allowed(v: StoreView, p: Seq<char>) -> bool {
    &&& has_parent(p)
    &&& v.dirs.contains(parent_of(p))
    &&& !v.dirs.contains(p)
}

/// Whether creating a directory at `p` can succeed.
pub open spec fn create_dir_allowed(v: StoreView, p: Seq<char>) -> bool {
    &&& has_parent(p)
    &&& v.dirs.contains(parent_of(p))
    &&& !v.dirs.contains(p)
    &&& !v.files.contains_key(p)
}

/// Whether updating the file at `p` can succeed: the file must exist.
pub open spec fn update_allowed(v: StoreView, p: Seq<char>) -> bool {
    v.files.contains_key(p)
}

/// Whether deleting the file at `p` can succeed: the file must exist.
pub open spec fn delete_allowed(v: StoreView, p: Seq<char>) -> bool {
    v.files.contains_key(p)
}

/// The state after writing content `c` to path `p` (create or update):
/// the file holds exactly `c`, all else is unchanged.
pub open spec fn after_write(v: StoreView, p: Seq<char>, c: Seq<char>) -> StoreView {
    StoreView { dirs: v.dirs, files: v.files.insert(p, c) }
}

/// The state after creating the directory `p`.
pub open spec fn after_create_dir(v: StoreView, p: Seq<char>) -> StoreView {
    StoreView { dirs: v.dirs.insert(p), files: v.files }
}

/// The state after deleting the file at `p`.
pub open spec fn after_delete(v: StoreView, p: Seq<char>) -> StoreView {
    StoreView { dirs: v.dirs, files: v.files.remove(p) }
}

/// What reading path `p` yields: the content when a file is there.
pub open spec fn read_result(v: StoreView, p: Seq<char>) -> Option<Seq<char>> {
    if v.files.contains_key(p) {
        Some(v.files[p])
    } else {
        None
    }
}

/// The names a listing of directory `d` yields: the base name of every
/// directory lying directly in `d`, and — when the filter keeps files —
/// of every file lying directly in `d`.
pub open spec fn child_names(v: StoreView, d: Seq<char>, filter: EntryFilter) -> Set<Seq<char>> {
    Set::new(
        |n: Seq<char>|
            {
                ||| exists|p: Seq<char>|
                    #[trigger] v.dirs.contains(p) && is_child(p, d) && base_name_of(p) == n
                ||| (filter == EntryFilter::AllEntries && exists|p: Seq<char>|
                    #[trigger] v.files.contains_key(p) && is_child(p, d) && base_name_of(p) == n)
            },
    )
}

impl View for FileStore {
    type V = StoreView;

    open spec fn view(&self) -> StoreView {
        StoreView { dirs: path_set(self.dirs@), files: file_map(self.files@) }
    }
}

/// A pair sequence with unique keys maps each stored path to its content.
proof fn lemma_file_map_value(s: Seq<(String, String)>, i: int)
    requires
        unique_keys(s),
        0 <= i < s.len(),
    ensures
        file_map(s).contains_key(s[i].0@),
        file_map(s)[s[i].0@] == s[i].1@,
{
    let p = s[i].0@;
    assert(0 <= i < s.len() && s[i].0@ == p);
    let j = choose|j: int| 0 <= j < s.len() && s[j].0@ == p;
    assert(j == i);
}

/// Appending a pair with a fresh key inserts exactly that binding.
proof fn lemma_file_map_push(s: Seq<(String, String)>, v: (String, String))
    requires
        unique_keys(s),
        forall|i: int| 0 <= i < s.len() ==> s[i].0@ != v.0@,
    ensures
        unique_keys(s.push(v)),
        file_map(s.push(v)) == file_map(s).insert(v.0@, v.1@),
{
    let s2 = s.push(v);
    assert(forall|i: int| 0 <= i < s.len() ==> s2[i] == s[i]);
    assert forall|p: Seq<char>|
        file_map(s2).contains_key(p) <==> file_map(s).insert(v.0@, v.1@).contains_key(p) by {
        if p == v.0@ {
            assert(s2[s.len() as int].0@ == p);
        } else {
            if file_map(s2).contains_key(p) {
                let i = choose|i: int| 0 <= i < s2.len() && s2[i].0@ == p;
                assert(i < s.len() && s[i].0@ == p);
            }
        }
    }
    assert forall|p: Seq<char>| #[trigger] file_map(s2).contains_key(p) implies file_map(s2)[p]
        == file_map(s).insert(v.0@, v.1@)[p] by {
        if p == v.0@ {
            lemma_file_map_value(s2, s.len() as int);
        } else {
            let i = choose|i: int| 0 <= i < s2.len() && s2[i].0@ == p;
            assert(i < s.len() && s[i].0@ == p);
            lemma_file_map_value(s2, i);
            lemma_file_map_value(s, i);
        }
    }
    assert(file_map(s2) =~= file_map(s).insert(v.0@, v.1@));
}

/// Removing the pair at index `i` removes exactly its binding.
proof fn lemma_file_map_remove(s: Seq<(String, String)>, i: int)
    requires
        unique_keys(s),
        0 <= i < s.len(),
    ensures
        unique_keys(s.remove(i)),
        file_map(s.remove(i)) == file_map(s).remove(s[i].0@),
{
    let s2 = s.remove(i);
    let k = s[i].0@;
    assert(forall|j: int| 0 <= j < i ==> s2[j] == s[j]);
    assert(forall|j: int| i <= j < s2.len() ==> s2[j] == s[j + 1]);
    assert forall|a: int, b: int| 0 <= a < b < s2.len() implies s2[a].0@ != s2[b].0@ by {
        let a0: int = if a < i { a } else { a + 1 };
        let b0: int = if b < i { b } else { b + 1 };
        assert(s2[a] == s[a0] && s2[b] == s[b0]);
    }
    assert forall|p: Seq<char>|
        file_map(s2).contains_key(p) <==> file_map(s).remove(k).contains_key(p) by {
        if file_map(s2).contains_key(p) {
            let j = choose|j: int| 0 <= j < s2.len() && s2[j].0@ == p;
            let j0: int = if j < i { j } else { j + 1 };
            assert(s[j0].0@ == p);
            if p == k {
                assert(s[j0].0@ == s[i].0@ && j0 != i);
                assert(false);
            }
        }
        if file_map(s).remove(k).contains_key(p) {
            let j = choose|j: int| 0 <= j < s.len() && s[j].0@ == p;
            assert(j != i);
            let j2: int = if j < i { j } else { j - 1 };
            assert(s2[j2].0@ == p);
        }
    }
    assert forall|p: Seq<char>| #[trigger] file_map(s2).contains_key(p) implies file_map(s2)[p]
        == file_map(s).remove(k)[p] by {
        let j = choose|j: int| 0 <= j < s2.len() && s2[j].0@ == p;
        let j0: int = if j < i { j } else { j + 1 };
        assert(s2[j] == s[j0]);
        lemma_file_map_value(s2, j);
        lemma_file_map_value(s, j0);
    }
    assert(file_map(s2) =~= file_map(s).remove(k));
}

/// The views of a sequence of strings, in order.
pub open spec fn names_of(s: Seq<String>) -> Seq<Seq<char>> {
    s.map_values(|x: String| x@)
}

/// The base names of the stored directories lying directly in `d`, in
/// storage order.
pub open spec fn dir_child_names(s: Seq<String>, d: Seq<char>) -> Seq<Seq<char>>
    decreases s.len(),
{
    if s.len() == 0 {
        Seq::empty()
    } else if is_child(s.last()@, d) {
        dir_child_names(s.drop_last(), d).push(base_name_of(s.last()@))
    } else {
        dir_child_names(s.drop_last(), d)
    }
}

/// The base names of the stored files lying directly in `d`, in storage
/// order.
pub open spec fn file_child_names(s: Seq<(String, String)>, d: Seq<char>) -> Seq<Seq<char>>
    decreases s.len(),
{
    if s.len() == 0 {
        Seq::empty()
    } else if is_child(s.last().0@, d) {
        file_child_names(s.drop_last(), d).push(base_name_of(s.last().0@))
    } else {
        file_child_names(s.drop_last(), d)
    }
}

/// A name is among the directory children exactly when some stored
/// directory lying in `d` carries it.
proof fn lemma_dir_child_names_complete(s: Seq<String>, d: Seq<char>)
    ensures
        forall|n: Seq<char>|
            #[trigger] dir_child_names(s, d).contains(n) <==> exists|i: int|
                0 <= i < s.len() && is_child(s[i]@, d) && base_name_of(s[i]@) == n,
    decreases s.len(),
{
    if s.len() > 0 {
        lemma_dir_child_names_complete(s.drop_last(), d);
        let prev = dir_child_names(s.drop_last(), d);
        assert forall|n: Seq<char>| #[trigger] dir_child_names(s, d).contains(n) implies exists|
            i: int,
        | 0 <= i < s.len() && is_child(s[i]@, d) && base_name_of(s[i]@) == n by {
            if is_child(s.last()@, d) && n == base_name_of(s.last()@) {
                assert(is_child(s[s.len() - 1]@, d) && base_name_of(s[s.len() - 1]@) == n);
            } else {
                assert(prev.contains(n));
                let i = choose|i: int|
                    0 <= i < s.drop_last().len() && is_child(s.drop_last()[i]@, d) && base_name_of(
                        s.drop_last()[i]@,
                    ) == n;
                assert(is_child(s[i]@, d) && base_name_of(s[i]@) == n);
            }
        }
        assert forall|n: Seq<char>|
            (exists|i: int|
                0 <= i < s.len() && is_child(s[i]@, d) && base_name_of(s[i]@)
                    == n) implies #[trigger] dir_child_names(s, d).contains(n) by {
            let i = choose|i: int| 0 <= i < s.len() && is_child(s[i]@, d) && base_name_of(s[i]@) == n;
            if i == s.len() - 1 {
                assert(dir_child_names(s, d).last() == n);
            } else {
                assert(s.drop_last()[i] == s[i]);
                assert(prev.contains(n));
                let k = choose|k: int| 0 <= k < prev.len() && prev[k] == n;
                assert(dir_child_names(s, d)[k] == n);
            }
        }
    }
}

/// A name is among the file children exactly when some stored file lying
/// in `d` carries it.
proof fn lemma_file_child_names_complete(s: Seq<(String, String)>, d: Seq<char>)
    ensures
        forall|n: Seq<char>|
            #[trigger] file_child_names(s, d).contains(n) <==> exists|i: int|
                0 <= i < s.len() && is_child(s[i].0@, d) && base_name_of(s[i].0@) == n,
    decreases s.len(),
{
    if s.len() > 0 {
        lemma_file_child_names_complete(s.drop_last(), d);
        let prev = file_child_names(s.drop_last(), d);
        assert forall|n: Seq<char>| #[trigger] file_child_names(s, d).contains(n) implies exists|
            i: int,
        | 0 <= i < s.len() && is_child(s[i].0@, d) && base_name_of(s[i].0@) == n by {
            if is_child(s.last().0@, d) && n == base_name_of(s.last().0@) {
                assert(is_child(s[s.len() - 1].0@, d) && base_name_of(s[s.len() - 1].0@) == n);
            } else {
                assert(prev.contains(n));
                let i = choose|i: int|
                    0 <= i < s.drop_last().len() && is_child(s.drop_last()[i].0@, d)
                        && base_name_of(s.drop_last()[i].0@) == n;
                assert(is_child(s[i].0@, d) && base_name_of(s[i].0@) == n);
            }
        }
        assert forall|n: Seq<char>|
            (exists|i: int|
                0 <= i < s.len() && is_child(s[i].0@, d) && base_name_of(s[i].0@)
                    == n) implies #[trigger] file_child_names(s, d).contains(n) by {
            let i = choose|i: int|
                0 <= i < s.len() && is_child(s[i].0@, d) && base_name_of(s[i].0@) == n;
            if i == s.len() - 1 {
                assert(file_child_names(s, d).last() == n);
            } else {
                assert(s.drop_last()[i] == s[i]);
                assert(prev.contains(n));
                let k = choose|k: int| 0 <= k < prev.len() && prev[k] == n;
                assert(file_child_names(s, d)[k] == n);
            }
        }
    }
}

/// Membership in a concatenation is membership in either part.
proof fn lemma_concat_contains(a: Seq<Seq<char>>, b: Seq<Seq<char>>)
    ensures
        forall|x: Seq<char>| #[trigger] (a + b).contains(x) <==> a.contains(x) || b.contains(x),
{
    assert forall|x: Seq<char>| #[trigger] (a + b).contains(x) implies a.contains(x) || b.contains(
        x,
    ) by {
        let i = choose|i: int| 0 <= i < (a + b).len() && (a + b)[i] == x;
        if i < a.len() {
            assert(a[i] == x);
        } else {
            assert(b[i - a.len()] == x);
        }
    }
    assert forall|x: Seq<char>| a.contains(x) || b.contains(x) implies #[trigger] (a + b).contains(
        x,
    ) by {
        if a.contains(x) {
            let i = choose|i: int| 0 <= i < a.len() && a[i] == x;
            assert((a + b)[i] == x);
        } else {
            let i = choose|i: int| 0 <= i < b.len() && b[i] == x;
            assert((a + b)[a.len() + i] == x);
        }
    }
}

/// Appending a fresh directory path inserts exactly that path.
proof fn lemma_path_set_push(s: Seq<String>, v: String)
    requires
        unique_paths(s),
        forall|i: int| 0 <= i < s.len() ==> s[i]@ != v@,
    ensures
        unique_paths(s.push(v)),
        path_set(s.push(v)) == path_set(s).insert(v@),
{
    let s2 = s.push(v);
    assert(forall|i: int| 0 <= i < s.len() ==> s2[i] == s[i]);
    assert forall|p: Seq<char>| path_set(s2).contains(p) <==> path_set(s).insert(v@).contains(
        p,
    ) by {
        if p == v@ {
            assert(s2[s.len() as int]@ == p);
        } else {
            if path_set(s2).contains(p) {
                let i = choose|i: int| 0 <= i < s2.len() && s2[i]@ == p;
                assert(i < s.len() && s[i]@ == p);
            }
        }
    }
    assert(path_set(s2) =~= path_set(s).insert(v@));
}

impl FileStore {
    /// Whether the store's representation is consistent: paths are stored
    /// once, no path is both a file and a directory, and the root exists.
    pub open spec fn wf(self) -> bool {
        &&& unique_paths(self.dirs@)
        &&& unique_keys(self.files@)
        &&& forall|i: int, j: int|
            0 <= i < self.files@.len() && 0 <= j < self.dirs@.len() ==> self.files@[i].0@
                != self.dirs@[j]@
        &&& self@.dirs.contains(Seq::<char>::empty())
    }

    /// A store holding only the empty root directory and no files.
    pub fn new() -> (r: FileStore)
        ensures
            r.wf(),
            r@.files == Map::<Seq<char>, Seq<char>>::empty(),
            r@.dirs == Set::<Seq<char>>::empty().insert(Seq::<char>::empty()),
    {
        let mut dirs: Vec<String> = Vec::new();
        dirs.push(String::new());
        let r = FileStore { dirs, files: Vec::new() };
        proof {
            assert(r.dirs@[0]@ == Seq::<char>::empty());
            assert(r@.files =~= Map::<Seq<char>, Seq<char>>::empty());
            assert(r@.dirs =~= Set::<Seq<char>>::empty().insert(Seq::<char>::empty()));
        }
        r
    }

    /// The index of the file stored at `path`, if any.
    fn find_file(&self, path: &String) -> (r: Option<usize>)
        ensures
            match r {
                Some(i) => i < self.files@.len() && self.files@[i as int].0@ == path@,
                None => forall|i: int| 0 <= i < self.files@.len() ==> self.files@[i].0@ != path@,
            },
    {
        let mut i: usize = 0;
        while i < self.files.len()
            invariant
                i <= self.files@.len(),
                forall|j: int| 0 <= j < i ==> self.files@[j].0@ != path@,
            decreases self.files@.len() - i,
        {
            if self.files[i].0 == *path {
                return Some(i);
            }
            i = i + 1;
        }
        None
    }

    /// The index of the directory stored at `path`, if any.
    fn find_dir(&self, path: &String) -> (r: Option<usize>)
        ensures
            match r {
                Some(i) => i < self.dirs@.len() && self.dirs@[i as int]@ == path@,
                None => forall|i: int| 0 <= i < self.dirs@.len() ==> self.dirs@[i]@ != path@,
            },
    {
        let mut i: usize = 0;
        while i < self.dirs.len()
            invariant
                i <= self.dirs@.len(),
                forall|j: int| 0 <= j < i ==> self.dirs@[j]@ != path@,
            decreases self.dirs@.len() - i,
        {
            if self.dirs[i] == *path {
                return Some(i);
            }
            i = i + 1;
        }
        None
    }

    /// Creates the directory `path` inside its (existing) parent.
    ///
    /// Succeeds exactly when the parent directory exists and nothing
    /// occupies `path` yet; on failure the store is unchanged.
    pub fn create_dir(&mut self, path: &String) -> (r: Result<(), FsError>)
        requires
            old(self).wf(),
        ensures
            final(self).wf(),
            match r {
                Ok(_) => {
                    &&& create_dir_allowed(old(self)@, path@)
                    &&& final(self)@ == after_create_dir(old(self)@, path@)
                },
                Err(e) => {
                    &&& !create_dir_allowed(old(self)@, path@)
                    &&& final(self)@ == old(self)@
                    &&& if !(has_parent(path@) && old(self)@.dirs.contains(parent_of(path@))) {
                        e.kind == FsErrorKind::NotFound && e.message@ == not_found_msg()
                    } else {
                        e.kind == FsErrorKind::AlreadyExists && e.message@ == already_exists_msg()
                    }
                },
            },
    {
        match split_path(path.as_str()) {
            None => Err(FsError::not_found()),
            Some((parent, _name)) => {
                match self.find_dir(&parent) {
                    None => Err(FsError::not_found()),
                    Some(_) => {
                        match self.find_dir(path) {
                            Some(_) => Err(FsError::already_exists()),
                            None => {
                                match self.find_file(path) {
                                    Some(_) => Err(FsError::already_exists()),
                                    None => {
                                        let new_dir = path.clone();
                                        proof {
                                            lemma_path_set_push(self.dirs@, new_dir);
                                        }
                                        self.dirs.push(new_dir);
                                        proof {
                                            assert(self@.dirs =~= old(self)@.dirs.insert(path@));
                                            assert forall|a: int, b: int|
                                                0 <= a < self.files@.len() && 0 <= b
                                                    < self.dirs@.len() implies self.files@[a].0@
                                                != self.dirs@[b]@ by {
                                                if b < self.dirs@.len() - 1 {
                                                    assert(self.dirs@[b] == old(self).dirs@[b]);
                                                } else {
                                                    assert(self.dirs@[b]@ == path@);
                                                }
                                            }
                                        }
                                        Ok(())
                                    },
                                }
                            },
                        }
                    },
                }
            },
        }
    }

    /// Writes `content` to the file at `path`, creating or truncating it.
    ///
    /// Succeeds exactly when `path` lies in an existing directory and is
    /// not itself a directory; on failure the store is unchanged.
    pub fn create_file(&mut self, path: &String, content: &String) -> (r: Result<(), FsError>)
        requires
            old(self).wf(),
        ensures
            final(self).wf(),
            match r {
                Ok(_) => {
                    &&& create_file_allowed(old(self)@, path@)
                    &&& final(self)@ == after_write(old(self)@, path@, content@)
                },
                Err(e) => {
                    &&& !create_file_allowed(old(self)@, path@)
                    &&& final(self)@ == old(self)@
                    &&& if !(has_parent(path@) && old(self)@.dirs.contains(parent_of(path@))) {
                        e.kind == FsErrorKind::NotFound && e.message@ == not_found_msg()
                    } else {
                        e.kind == FsErrorKind::Other && e.message@ == is_directory_msg()
                    }
                },
            },
    {
        match split_path(path.as_str()) {
            None => Err(FsError::not_found()),
            Some((parent, _name)) => {
                match self.find_dir(&parent) {
                    None => Err(FsError::not_found()),
                    Some(_) => {
                        match self.find_dir(path) {
                            Some(_) => Err(FsError::is_directory()),
                            None => {
                                self.write_slot(path, content);
                                Ok(())
                            },
                        }
                    },
                }
            },
        }
    }

    /// Stores `content` under `path`, replacing any pair already there.
    /// Requires that no directory occupies `path`.
    fn write_slot(&mut self, path: &String, content: &String)
        requires
            old(self).wf(),
            forall|i: int| 0 <= i < old(self).dirs@.len() ==> old(self).dirs@[i]@ != path@,
        ensures
            final(self).wf(),
            final(self)@ == after_write(old(self)@, path@, content@),
    {
        let new_pair = (path.clone(), content.clone());
        match self.find_file(path) {
            Some(i) => {
                proof {
                    lemma_file_map_remove(self.files@, i as int);
                }
                self.files.remove(i);
                proof {
                    assert forall|j: int| 0 <= j < self.files@.len() implies self.files@[j].0@
                        != path@ by {
                        let j0: int = if j < i as int { j } else { j + 1 };
                        assert(self.files@[j] == old(self).files@[j0]);
                        assert(j0 != i as int);
                    }
                    lemma_file_map_push(self.files@, new_pair);
                }
                let ghost mid = self.files@;
                self.files.push(new_pair);
                proof {
                    assert(old(self)@.files.remove(path@).insert(path@, content@)
                        =~= old(self)@.files.insert(path@, content@));
                    assert(self@.files =~= old(self)@.files.insert(path@, content@));
                    assert forall|a: int, b: int|
                        0 <= a < self.files@.len() && 0 <= b < self.dirs@.len() implies self.files@[a].0@
                        != self.dirs@[b]@ by {
                        if a < self.files@.len() - 1 {
                            assert(self.files@[a] == mid[a]);
                            let a0: int = if a < i as int { a } else { a + 1 };
                            assert(mid[a] == old(self).files@[a0]);
                        } else {
                            assert(self.files@[a].0@ == path@);
                        }
                    }
                }
            },
            None => {
                proof {
                    lemma_file_map_push(self.files@, new_pair);
                }
                self.files.push(new_pair);
                proof {
                    assert(self@.files =~= old(self)@.files.insert(path@, content@));
                    assert forall|a: int, b: int|
                        0 <= a < self.files@.len() && 0 <= b < self.dirs@.len() implies self.files@[a].0@
                        != self.dirs@[b]@ by {
                        if a < self.files@.len() - 1 {
                            assert(self.files@[a] == old(self).files@[a]);
                        } else {
                            assert(self.files@[a].0@ == path@);
                        }
                    }
                }
            },
        }
    }

    /// Returns the full content of the file at `path`.
    ///
    /// Succeeds exactly when a file is stored there; fails as a missing
    /// file, or as `is a directory` when `path` names a directory.
    pub fn read_file(&self, path: &String) -> (r: Result<String, FsError>)
        requires
            self.wf(),
        ensures
            match r {
                Ok(content) => read_result(self@, path@) == Some(content@),
                Err(e) => {
                    &&& read_result(self@, path@) is None
                    &&& if self@.dirs.contains(path@) {
                        e.kind == FsErrorKind::Other && e.message@ == is_directory_msg()
                    } else {
                        e.kind == FsErrorKind::NotFound && e.message@ == not_found_msg()
                    }
                },
            },
    {
        match self.find_file(path) {
            Some(i) => {
                proof {
                    lemma_file_map_value(self.files@, i as int);
                }
                Ok(self.files[i].1.clone())
            },
            None => {
                match self.find_dir(path) {
                    Some(_) => Err(FsError::is_directory()),
                    None => Err(FsError::not_found()),
                }
            },
        }
    }

    /// Overwrites the file at `path` with `content`, truncating what was
    /// there. Succeeds exactly when the file already exists; it never
    /// creates one.
    pub fn update_file(&mut self, path: &String, content: &String) -> (r: Result<(), FsError>)
        requires
            old(self).wf(),
        ensures
            final(self).wf(),
            match r {
                Ok(_) => {
                    &&& update_allowed(old(self)@, path@)
                    &&& final(self)@ == after_write(old(self)@, path@, content@)
                },
                Err(e) => {
                    &&& !update_allowed(old(self)@, path@)
                    &&& final(self)@ == old(self)@
                    &&& if old(self)@.dirs.contains(path@) {
                        e.kind == FsErrorKind::Other && e.message@ == is_directory_msg()
                    } else {
                        e.kind == FsErrorKind::NotFound && e.message@ == not_found_msg()
                    }
                },
            },
    {
        match self.find_file(path) {
            Some(k) => {
                proof {
                    assert forall|j: int| 0 <= j < self.dirs@.len() implies self.dirs@[j]@
                        != path@ by {
                        assert(self.files@[k as int].0@ == path@);
                    }
                }
                self.write_slot(path, content);
                Ok(())
            },
            None => {
                match self.find_dir(path) {
                    Some(_) => Err(FsError::is_directory()),
                    None => Err(FsError::not_found()),
                }
            },
        }
    }

    /// Removes the file at `path`.
    ///
    /// Succeeds exactly when a file is stored there; deleting a missing
    /// path fails, never silently succeeds.
    pub fn delete_file(&mut self, path: &String) -> (r: Result<(), FsError>)
        requires
            old(self).wf(),
        ensures
            final(self).wf(),
            match r {
                Ok(_) => {
                    &&& delete_allowed(old(self)@, path@)
                    &&& final(self)@ == after_delete(old(self)@, path@)
                },
                Err(e) => {
                    &&& !delete_allowed(old(self)@, path@)
                    &&& final(self)@ == old(self)@
                    &&& if old(self)@.dirs.contains(path@) {
                        e.kind == FsErrorKind::Other && e.message@ == is_directory_msg()
                    } else {
                        e.kind == FsErrorKind::NotFound && e.message@ == not_found_msg()
                    }
                },
            },
    {
        match self.find_file(path) {
            Some(i) => {
                proof {
                    lemma_file_map_remove(self.files@, i as int);
                }
                self.files.remove(i);
                proof {
                    assert(self@.files =~= old(self)@.files.remove(path@));
                    assert forall|a: int, b: int|
                        0 <= a < self.files@.len() && 0 <= b < self.dirs@.len() implies self.files@[a].0@
                        != self.dirs@[b]@ by {
                        let a0: int = if a < i as int { a } else { a + 1 };
                        assert(self.files@[a] == old(self).files@[a0]);
                    }
                }
                Ok(())
            },
            None => {
                match self.find_dir(path) {
                    Some(_) => Err(FsError::is_directory()),
                    None => Err(FsError::not_found()),
                }
            },
        }
    }

    /// Lists the directory at `path`: the base names of everything lying
    /// directly in it, with files dropped under `DirectoriesOnly`.
    ///
    /// Succeeds exactly when `path` names an existing directory; the
    /// result, taken as a set, is exactly the set of child names. Fails as
    /// `not a directory` when `path` names a file, as missing otherwise.
    pub fn list_directory(&self, path: &String, filter: EntryFilter) -> (r: Result<
        Vec<String>,
        FsError,
    >)
        requires
            self.wf(),
        ensures
            match r {
                Ok(names) => {
                    &&& self@.dirs.contains(path@)
                    &&& names_of(names@).to_set() == child_names(self@, path@, filter)
                },
                Err(e) => {
                    &&& !self@.dirs.contains(path@)
                    &&& if self@.files.contains_key(path@) {
                        e.kind == FsErrorKind::Other && e.message@ == not_directory_msg()
                    } else {
                        e.kind == FsErrorKind::NotFound && e.message@ == not_found_msg()
                    }
                },
            },
    {
        match self.find_dir(path) {
            None => {
                match self.find_file(path) {
                    Some(_) => Err(FsError::not_directory()),
                    None => Err(FsError::not_found()),
                }
            },
            Some(_) => {
                let mut names: Vec<String> = Vec::new();
                let mut i: usize = 0;
                while i < self.dirs.len()
                    invariant
                        i <= self.dirs@.len(),
                        names_of(names@) == dir_child_names(self.dirs@.take(i as int), path@),
                    decreases self.dirs@.len() - i,
                {
                    proof {
                        assert(self.dirs@.take(i + 1).drop_last() =~= self.dirs@.take(i as int));
                        assert(self.dirs@.take(i + 1).last() == self.dirs@[i as int]);
                    }
                    match child_base(self.dirs[i].as_str(), path) {
                        Some(b) => {
                            let ghost before = names@;
                            names.push(b);
                            proof {
                                assert(names_of(names@) =~= names_of(before).push(
                                    base_name_of(self.dirs@[i as int]@),
                                ));
                            }
                        },
                        None => {},
                    }
                    i = i + 1;
                }
                proof {
                    assert(self.dirs@.take(self.dirs@.len() as int) =~= self.dirs@);
                }
                let ghost dirs_part = dir_child_names(self.dirs@, path@);
                let keep_files = match filter {
                    EntryFilter::AllEntries => true,
                    EntryFilter::DirectoriesOnly => false,
                };
                if keep_files {
                    proof {
                        assert(dirs_part + file_child_names(
                            self.files@.take(0),
                            path@,
                        ) =~= dirs_part);
                    }
                    let mut j: usize = 0;
                    while j < self.files.len()
                        invariant
                            j <= self.files@.len(),
                            dirs_part == dir_child_names(self.dirs@, path@),
                            names_of(names@) == dirs_part + file_child_names(
                                self.files@.take(j as int),
                                path@,
                            ),
                        decreases self.files@.len() - j,
                    {
                        proof {
                            assert(self.files@.take(j + 1).drop_last() =~= self.files@.take(
                                j as int,
                            ));
                            assert(self.files@.take(j + 1).last() == self.files@[j as int]);
                        }
                        match child_base(self.files[j].0.as_str(), path) {
                            Some(b) => {
                                let ghost before = names@;
                                names.push(b);
                                proof {
                                    assert(names_of(names@) =~= names_of(before).push(
                                        base_name_of(self.files@[j as int].0@),
                                    ));
                                }
                            },
                            None => {},
                        }
                        j = j + 1;
                    }
                    proof {
                        assert(self.files@.take(self.files@.len() as int) =~= self.files@);
                    }
                }
                proof {
                    lemma_dir_child_names_complete(self.dirs@, path@);
                    let ghost files_part = file_child_names(self.files@, path@);
                    if filter == EntryFilter::AllEntries {
                        lemma_file_child_names_complete(self.files@, path@);
                        lemma_concat_contains(dirs_part, files_part);
                    }
                    assert forall|n: Seq<char>| #[trigger] names_of(names@).contains(
                        n,
                    ) implies child_names(self@, path@, filter).contains(n) by {
                        if dirs_part.contains(n) {
                            let k = choose|k: int|
                                0 <= k < self.dirs@.len() && is_child(self.dirs@[k]@, path@)
                                    && base_name_of(self.dirs@[k]@) == n;
                            let p = self.dirs@[k]@;
                            assert(self@.dirs.contains(p) && is_child(p, path@) && base_name_of(p)
                                == n);
                        } else {
                            assert(filter == EntryFilter::AllEntries && files_part.contains(n));
                            let k = choose|k: int|
                                0 <= k < self.files@.len() && is_child(self.files@[k].0@, path@)
                                    && base_name_of(self.files@[k].0@) == n;
                            let p = self.files@[k].0@;
                            assert(self@.files.contains_key(p) && is_child(p, path@)
                                && base_name_of(p) == n);
                        }
                    }
                    assert forall|n: Seq<char>| #[trigger] child_names(self@, path@, filter).contains(
                        n,
                    ) implies names_of(names@).contains(n) by {
                        if exists|p: Seq<char>|
                            #[trigger] self@.dirs.contains(p) && is_child(p, path@) && base_name_of(
                                p,
                            ) == n {
                            let p = choose|p: Seq<char>|
                                #[trigger] self@.dirs.contains(p) && is_child(p, path@)
                                    && base_name_of(p) == n;
                            let k = choose|k: int| 0 <= k < self.dirs@.len() && self.dirs@[k]@ == p;
                            assert(is_child(self.dirs@[k]@, path@) && base_name_of(self.dirs@[k]@)
                                == n);
                            assert(dirs_part.contains(n));
                        } else {
                            let p = choose|p: Seq<char>|
                                #[trigger] self@.files.contains_key(p) && is_child(p, path@)
                                    && base_name_of(p) == n;
                            let k = choose|k: int|
                                0 <= k < self.files@.len() && self.files@[k].0@ == p;
                            assert(is_child(self.files@[k].0@, path@) && base_name_of(
                                self.files@[k].0@,
                            ) == n);
                            assert(files_part.contains(n));
                        }
                    }
                    assert(names_of(names@).to_set() =~= child_names(self@, path@, filter));
                }
                Ok(names)
            },
        }
    }
}

/// Reading a path just written yields exactly the written content: the
/// create–read round trip returns what went in.
pub proof fn lemma_create_then_read(v: StoreView, p: Seq<char>, c: Seq<char>)
    requires
        create_file_allowed(v, p),
    ensures
        read_result(after_write(v, p, c), p) == Some(c),
{
}

/// Updating a just-created file replaces its content in full: a later
/// read sees only the second content, never the first.
pub proof fn lemma_update_overwrites(v: StoreView, p: Seq<char>, c1: Seq<char>, c2: Seq<char>)
    requires
        create_file_allowed(v, p),
    ensures
        update_allowed(after_write(v, p, c1), p),
        read_result(after_write(after_write(v, p, c1), p, c2), p) == Some(c2),
{
}

/// Deleting a just-created file leaves nothing to read: a later read of
/// the same path finds no file.
pub proof fn lemma_delete_then_read(v: StoreView, p: Seq<char>, c: Seq<char>)
    requires
        create_file_allowed(v, p),
    ensures
        delete_allowed(after_write(v, p, c), p),
        read_result(after_delete(after_write(v, p, c), p), p) is None,
{
}

} // verus!
