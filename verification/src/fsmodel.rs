//! An in-memory model of the slice of the filesystem a bundle lives in:
//! a set of directory paths and a map from file paths to their text. The
//! bundle operations are verified against this model; a thin unverified
//! shell mirrors it onto a real disk.
use vstd::prelude::*;

verus! {

/// One file of the model: a path and its text.
pub struct FsEntry {
    pub path: String,
    pub data: Vec<char>,
}

/// The filesystem model: directories and files, each path held once.
pub struct Fs {
    pub dirs: Vec<String>,
    pub files: Vec<FsEntry>,
}

/// The mathematical view of the model.
pub struct FsView {
    pub dirs: Set<Seq<char>>,
    pub files: Map<Seq<char>, Seq<char>>,
}

/// The set of directory paths named by a sequence of strings.
pub open spec fn dirs_set(s: Seq<String>) -> Set<Seq<char>>
    decreases s.len(),
{
    if s.len() == 0 {
        Set::<Seq<char>>::empty()
    } else {
        dirs_set(s.drop_last()).insert(s.last()@)
    }
}

/// The map from file paths to file texts named by a sequence of entries.
pub open spec fn files_map(s: Seq<FsEntry>) -> Map<Seq<char>, Seq<char>>
    decreases s.len(),
{
    if s.len() == 0 {
        Map::<Seq<char>, Seq<char>>::empty()
    } else {
        files_map(s.drop_last()).insert(s.last().path@, s.last().data@)
    }
}

/// No two entries share a path.
pub open spec fn entries_unique(s: Seq<FsEntry>) -> bool {
    forall|i: int, j: int| 0 <= i < j < s.len() ==> s[i].path@ != s[j].path@
}

/// No two directory names coincide.
pub open spec fn dirs_unique(s: Seq<String>) -> bool {
    forall|i: int, j: int| 0 <= i < j < s.len() ==> s[i]@ != s[j]@
}

/// A path is present in a view as a directory or as a file.
pub open spec fn exists_path(v: FsView, p: Seq<char>) -> bool {
    v.dirs.contains(p) || v.files.contains_key(p)
}

/// A directory path of a sequence is in its set, and each member of the set
/// is named by some element.
pub proof fn lemma_dirs_set_index(s: Seq<String>)
    ensures
        forall|j: int| 0 <= j < s.len() ==> dirs_set(s).contains(#[trigger] s[j]@),
        forall|q: Seq<char>|
            dirs_set(s).contains(q) ==> exists|j: int| 0 <= j < s.len() && s[j]@ == q,
    decreases s.len(),
{
    if s.len() > 0 {
        lemma_dirs_set_index(s.drop_last());
        assert forall|j: int| 0 <= j < s.len() implies dirs_set(s).contains(#[trigger] s[j]@) by {
            if j < s.len() - 1 {
                assert(s.drop_last()[j] == s[j]);
            }
        }
        assert forall|q: Seq<char>| dirs_set(s).contains(q) implies exists|j: int|
            0 <= j < s.len() && s[j]@ == q by {
            if q == s.last()@ {
                assert(s[s.len() - 1]@ == q);
            } else {
                assert(dirs_set(s.drop_last()).contains(q));
                let j = choose|j: int| 0 <= j < s.drop_last().len() && s.drop_last()[j]@ == q;
                assert(s.drop_last()[j] == s[j]);
                assert(s[j]@ == q);
            }
        }
    }
}

/// With unique paths, each entry's path keys its text in the map, and each
/// key of the map is some entry's path.
pub proof fn lemma_files_map_index(s: Seq<FsEntry>)
    requires
        entries_unique(s),
    ensures
        forall|j: int|
            0 <= j < s.len() ==> files_map(s).contains_key(#[trigger] s[j].path@) && files_map(s)[
                s[j].path@
            ] == s[j].data@,
        forall|q: Seq<char>|
            files_map(s).contains_key(q) ==> exists|j: int| 0 <= j < s.len() && s[j].path@ == q,
    decreases s.len(),
{
    if s.len() > 0 {
        assert(entries_unique(s.drop_last())) by {
            assert forall|i: int, j: int|
                0 <= i < j < s.drop_last().len() implies s.drop_last()[i].path@ != s.drop_last()[
                j
            ].path@ by {
                assert(s[i] == s.drop_last()[i]);
                assert(s[j] == s.drop_last()[j]);
            }
        }
        lemma_files_map_index(s.drop_last());
        assert forall|j: int|
            0 <= j < s.len() implies files_map(s).contains_key(#[trigger] s[j].path@)
            && files_map(s)[s[j].path@] == s[j].data@ by {
            if j < s.len() - 1 {
                assert(s.drop_last()[j] == s[j]);
                assert(s[j].path@ != s.last().path@);
            }
        }
        assert forall|q: Seq<char>| files_map(s).contains_key(q) implies exists|j: int|
            0 <= j < s.len() && s[j].path@ == q by {
            if q == s.last().path@ {
                assert(s[s.len() - 1].path@ == q);
            } else {
                assert(files_map(s.drop_last()).contains_key(q));
                let j = choose|j: int|
                    0 <= j < s.drop_last().len() && s.drop_last()[j].path@ == q;
                assert(s.drop_last()[j] == s[j]);
                assert(s[j].path@ == q);
            }
        }
    }
}

/// With unique paths, removing the entry at `i` removes exactly its key.
pub proof fn lemma_files_map_remove(s: Seq<FsEntry>, i: int)
    requires
        entries_unique(s),
        0 <= i < s.len(),
    ensures
        files_map(s.remove(i)) == files_map(s).remove(s[i].path@),
    decreases s.len(),
{
    lemma_files_map_index(s);
    if i == s.len() - 1 {
        assert(s.remove(i) =~= s.drop_last());
        assert(entries_unique(s.drop_last())) by {
            assert forall|a: int, b: int|
                0 <= a < b < s.drop_last().len() implies s.drop_last()[a].path@ != s.drop_last()[
                b
            ].path@ by {
                assert(s[a] == s.drop_last()[a]);
                assert(s[b] == s.drop_last()[b]);
            }
        }
        lemma_files_map_index(s.drop_last());
        assert(!files_map(s.drop_last()).contains_key(s[i].path@)) by {
            if files_map(s.drop_last()).contains_key(s[i].path@) {
                let j = choose|j: int|
                    0 <= j < s.drop_last().len() && s.drop_last()[j].path@ == s[i].path@;
                assert(s[j].path@ == s[i].path@);
            }
        }
        assert(files_map(s.remove(i)) =~= files_map(s).remove(s[i].path@));
    } else {
        let t = s.remove(i);
        assert(t.drop_last() =~= s.drop_last().remove(i));
        assert(t.last() == s.last());
        assert(entries_unique(s.drop_last())) by {
            assert forall|a: int, b: int|
                0 <= a < b < s.drop_last().len() implies s.drop_last()[a].path@ != s.drop_last()[
                b
            ].path@ by {
                assert(s[a] == s.drop_last()[a]);
                assert(s[b] == s.drop_last()[b]);
            }
        }
        lemma_files_map_remove(s.drop_last(), i);
        assert(s.drop_last()[i] == s[i]);
        assert(s[i].path@ != s.last().path@);
        assert(files_map(t) == files_map(s.drop_last().remove(i)).insert(
            s.last().path@,
            s.last().data@,
        ));
        assert(files_map(s.remove(i)) =~= files_map(s).remove(s[i].path@));
    }
}

impl View for Fs {
    type V = FsView;

    open spec fn view(&self) -> FsView {
        FsView { dirs: dirs_set(self.dirs@), files: files_map(self.files@) }
    }
}

impl Fs {
    /// The model's invariant: each path occurs once.
    pub open spec fn wf(&self) -> bool {
        entries_unique(self.files@) && dirs_unique(self.dirs@)
    }

    /// An empty filesystem model.
    pub fn new() -> (r: Fs)
        ensures
            r.wf(),
            r@.dirs == Set::<Seq<char>>::empty(),
            r@.files == Map::<Seq<char>, Seq<char>>::empty(),
    {
        Fs { dirs: Vec::new(), files: Vec::new() }
    }

    /// The index of the file at `p`, if one is present.
    fn find_file(&self, p: &String) -> (r: Option<usize>)
        requires
            self.wf(),
        ensures
            match r {
                Some(i) => i < self.files@.len() && self.files@[i as int].path@ == p@,
                None => !self@.files.contains_key(p@),
            },
    {
        let n = self.files.len();
        let mut k: usize = 0;
        while k < n
            invariant
                n == self.files@.len(),
                k <= n,
                forall|j: int| 0 <= j < k ==> self.files@[j].path@ != p@,
            decreases n - k,
        {
            if self.files[k].path == *p {
                return Some(k);
            }
            k += 1;
        }
        proof {
            lemma_files_map_index(self.files@);
            if self@.files.contains_key(p@) {
                let j = choose|j: int|
                    0 <= j < self.files@.len() && self.files@[j].path@ == p@;
                assert(false);
            }
        }
        None
    }

    /// Whether a directory named `p` is present.
    pub fn dir_exists(&self, p: &String) -> (r: bool)
        ensures
            r == self@.dirs.contains(p@),
    {
        proof {
            lemma_dirs_set_index(self.dirs@);
        }
        let n = self.dirs.len();
        let mut k: usize = 0;
        while k < n
            invariant
                n == self.dirs@.len(),
                k <= n,
                forall|j: int| 0 <= j < k ==> self.dirs@[j]@ != p@,
            decreases n - k,
        {
            if self.dirs[k] == *p {
                proof {
                    lemma_dirs_set_index(self.dirs@);
                }
                return true;
            }
            k += 1;
        }
        proof {
            if self@.dirs.contains(p@) {
                let j = choose|j: int| 0 <= j < self.dirs@.len() && self.dirs@[j]@ == p@;
                assert(false);
            }
        }
        false
    }

    /// Whether a file at `p` is present.
    pub fn file_exists(&self, p: &String) -> (r: bool)
        requires
            self.wf(),
        ensures
            r == self@.files.contains_key(p@),
    {
        proof {
            lemma_files_map_index(self.files@);
        }
        self.find_file(p).is_some()
    }

    /// The text of the file at `p`, if one is present.
    pub fn read_file(&self, p: &String) -> (r: Option<&Vec<char>>)
        requires
            self.wf(),
        ensures
            match r {
                Some(d) => self@.files.contains_key(p@) && d@ == self@.files[p@],
                None => !self@.files.contains_key(p@),
            },
    {
        proof {
            lemma_files_map_index(self.files@);
        }
        match self.find_file(p) {
            Some(i) => Some(&self.files[i].data),
            None => None,
        }
    }

    /// Adds the directory `p`; adding a present directory changes nothing.
    pub fn create_dir(&mut self, p: &String)
        requires
            old(self).wf(),
        ensures
            final(self).wf(),
            final(self)@.files == old(self)@.files,
            final(self)@.dirs == old(self)@.dirs.insert(p@),
    {
        if self.dir_exists(p) {
            proof {
                assert(old(self)@.dirs.insert(p@) =~= old(self)@.dirs);
            }
        } else {
            let ghost d0 = self.dirs@;
            self.dirs.push(p.clone());
            proof {
                assert(self.dirs@.drop_last() =~= d0);
                assert(self.dirs@.last()@ == p@);
                lemma_dirs_set_index(d0);
                assert(dirs_unique(self.dirs@)) by {
                    assert forall|i: int, j: int|
                        0 <= i < j < self.dirs@.len() implies self.dirs@[i]@ != self.dirs@[j]@ by {
                        if j == self.dirs@.len() - 1 {
                            assert(self.dirs@[i]@ == d0[i]@);
                            assert(dirs_set(d0).contains(d0[i]@));
                        }
                    }
                }
            }
        }
    }

    /// Writes the file at `p`, replacing any present text.
    pub fn write_file(&mut self, p: &String, data: Vec<char>)
        requires
            old(self).wf(),
        ensures
            final(self).wf(),
            final(self)@.dirs == old(self)@.dirs,
            final(self)@.files == old(self)@.files.insert(p@, data@),
    {
        let ghost m0 = self@.files;
        match self.find_file(p) {
            Some(i) => {
                proof {
                    lemma_files_map_remove(self.files@, i as int);
                }
                let ghost s0 = self.files@;
                let _removed = self.files.remove(i);
                proof {
                    assert(entries_unique(self.files@)) by {
                        assert forall|a: int, b: int|
                            0 <= a < b < self.files@.len() implies self.files@[a].path@
                            != self.files@[b].path@ by {
                            let a0 = if a < i as int {
                                a
                            } else {
                                a + 1
                            };
                            let b0 = if b < i as int {
                                b
                            } else {
                                b + 1
                            };
                            assert(self.files@[a] == s0[a0]);
                            assert(self.files@[b] == s0[b0]);
                        }
                    }
                }
            },
            None => {
                proof {
                    assert(m0.remove(p@) =~= m0);
                }
            },
        }
        let ghost s1 = self.files@;
        self.files.push(FsEntry { path: p.clone(), data });
        proof {
            assert(self.files@.drop_last() =~= s1);
            assert(self.files@.last().path@ == p@);
            assert(files_map(s1) == m0.remove(p@));
            lemma_files_map_index(s1);
            assert(entries_unique(self.files@)) by {
                assert forall|a: int, b: int|
                    0 <= a < b < self.files@.len() implies self.files@[a].path@ != self.files@[
                    b
                ].path@ by {
                    if b == self.files@.len() - 1 {
                        assert(self.files@[a] == s1[a]);
                        assert(!files_map(s1).contains_key(p@));
                        assert(files_map(s1).contains_key(s1[a].path@));
                    }
                }
            }
            assert(final(self)@.files =~= old(self)@.files.insert(p@, data@));
        }
    }

    /// Removes the file at `p`; says whether one was present.
    pub fn remove_file(&mut self, p: &String) -> (r: bool)
        requires
            old(self).wf(),
        ensures
            final(self).wf(),
            final(self)@.dirs == old(self)@.dirs,
            r == old(self)@.files.contains_key(p@),
            final(self)@.files == old(self)@.files.remove(p@),
    {
        proof {
            lemma_files_map_index(self.files@);
        }
        match self.find_file(p) {
            Some(i) => {
                proof {
                    lemma_files_map_remove(self.files@, i as int);
                }
                let ghost s0 = self.files@;
                let _removed = self.files.remove(i);
                proof {
                    assert(entries_unique(self.files@)) by {
                        assert forall|a: int, b: int|
                            0 <= a < b < self.files@.len() implies self.files@[a].path@
                            != self.files@[b].path@ by {
                            let a0 = if a < i as int {
                                a
                            } else {
                                a + 1
                            };
                            let b0 = if b < i as int {
                                b
                            } else {
                                b + 1
                            };
                            assert(self.files@[a] == s0[a0]);
                            assert(self.files@[b] == s0[b0]);
                        }
                    }
                }
                true
            },
            None => {
                proof {
                    assert(old(self)@.files.remove(p@) =~= old(self)@.files);
                }
                false
            },
        }
    }
}

} // verus!
