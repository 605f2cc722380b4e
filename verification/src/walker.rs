//! The directory-walk policy: a work-list traversal over directory
//! listings that the caller reads from the filesystem and hands in, so
//! that the filtering and path-building rules live here while the reading
//! stays outside. Hidden entries — names beginning with a dot — are
//! skipped, except the allow-listed `.thoughtlog` marker; paths come out
//! relative to the root, joined with `/`.

use vstd::prelude::*;

verus! {

/// What kind of filesystem entry a name refers to.
#[derive(Clone, Copy, PartialEq, Eq, Structural, Debug)]
pub enum EntryKind {
    Dir,
    File,
    Other,
}

/// One entry of a directory listing, as the caller read it.
pub struct DirEntry {
    pub name: String,
    pub kind: EntryKind,
}

impl View for DirEntry {
    type V = (Seq<char>, EntryKind);

    open spec fn view(&self) -> (Seq<char>, EntryKind) {
        (self.name@, self.kind)
    }
}

/// Whether the policy keeps an entry of this name: everything but the
/// hidden names, with the `.thoughtlog` marker always kept.
pub open spec fn included(name: Seq<char>) -> bool {
    name.len() == 0 || name[0] != '.' || name == ".thoughtlog"@
}

/// A root-relative path: the name alone at the root, else joined with `/`.
pub open spec fn joined(prefix: Seq<char>, name: Seq<char>) -> Seq<char> {
    if prefix.len() == 0 {
        name
    } else {
        prefix + "/"@ + name
    }
}

/// The kept files of a listing, as root-relative paths, in listing order.
pub open spec fn files_added(prefix: Seq<char>, entries: Seq<(Seq<char>, EntryKind)>) -> Seq<
    Seq<char>,
>
    decreases entries,
{
    if entries.len() == 0 {
        Seq::empty()
    } else {
        files_added(prefix, entries.drop_last()) + if included(entries.last().0)
            && entries.last().1 == EntryKind::File {
            seq![joined(prefix, entries.last().0)]
        } else {
            Seq::empty()
        }
    }
}

/// The kept subdirectories of a listing, as root-relative paths, in
/// listing order.
pub open spec fn dirs_added(prefix: Seq<char>, entries: Seq<(Seq<char>, EntryKind)>) -> Seq<
    Seq<char>,
>
    decreases entries,
{
    if entries.len() == 0 {
        Seq::empty()
    } else {
        dirs_added(prefix, entries.drop_last()) + if included(entries.last().0)
            && entries.last().1 == EntryKind::Dir {
            seq![joined(prefix, entries.last().0)]
        } else {
            Seq::empty()
        }
    }
}

/// Join a root-relative prefix and an entry name.
fn join_path(prefix: &String, name: &String) -> (r: String)
    ensures
        r@ == joined(prefix@, name@),
{
    if prefix.as_str().is_empty() {
        name.clone()
    } else {
        let r = prefix.clone().concat("/").concat(name.as_str());
        proof {
            assert(r@ =~= joined(prefix@, name@));
        }
        r
    }
}

/// Whether the policy keeps an entry of this name.
fn name_included(name: &String) -> (r: bool)
    ensures
        r == included(name@),
{
    if name.as_str().is_empty() {
        true
    } else if name.as_str().get_char(0) != '.' {
        true
    } else {
        let marker = ".thoughtlog".to_owned();
        *name == marker
    }
}

/// The traversal state: directories still to read, and files found so
/// far, both as root-relative paths.
pub struct Walker {
    pending: Vec<String>,
    files: Vec<String>,
}

impl Walker {
    /// Directories still to read.
    pub closed spec fn pending_model(self) -> Seq<Seq<char>> {
        self.pending@.map_values(|p: String| p@)
    }

    /// Files found so far, as root-relative paths.
    pub closed spec fn files_model(self) -> Seq<Seq<char>> {
        self.files@.map_values(|p: String| p@)
    }

    /// A fresh traversal: the root itself (the empty relative path) is
    /// pending, and no file is found yet.
    pub fn new() -> (r: Walker)
        ensures
            r.pending_model() == seq![Seq::<char>::empty()],
            r.files_model() == Seq::<Seq<char>>::empty(),
    {
        let mut pending: Vec<String> = Vec::new();
        pending.push(String::new());
        let r = Walker { pending, files: Vec::new() };
        proof {
            assert(r.pending_model() =~= seq![Seq::<char>::empty()]);
            assert(r.files_model() =~= Seq::<Seq<char>>::empty());
        }
        r
    }

    /// Take one pending directory, or report the traversal finished.
    pub fn next_dir(&mut self) -> (r: Option<String>)
        ensures
            match r {
                Some(d) => {
                    &&& old(self).pending_model().len() > 0
                    &&& d@ == old(self).pending_model().last()
                    &&& final(self).pending_model() == old(self).pending_model().drop_last()
                },
                None => {
                    &&& old(self).pending_model().len() == 0
                    &&& final(self).pending_model() == old(self).pending_model()
                },
            },
            final(self).files_model() == old(self).files_model(),
    {
        let r = self.pending.pop();
        proof {
            if old(self).pending@.len() > 0 {
                assert(self.pending_model() =~= old(self).pending_model().drop_last());
            } else {
                assert(self.pending_model() =~= old(self).pending_model());
            }
        }
        r
    }

    /// Feed the listing of one directory, read by the caller: kept files
    /// are recorded, kept subdirectories become pending, hidden entries
    /// and other kinds are dropped.
    #[verifier::loop_isolation(false)]
    pub fn ingest(&mut self, prefix: &String, entries: &Vec<DirEntry>)
        ensures
            final(self).files_model() == old(self).files_model() + files_added(
                prefix@,
                entries@.map_values(|d: DirEntry| d@),
            ),
            final(self).pending_model() == old(self).pending_model() + dirs_added(
                prefix@,
                entries@.map_values(|d: DirEntry| d@),
            ),
    {
        let ghost model = entries@.map_values(|d: DirEntry| d@);
        let mut i: usize = 0;
        while i < entries.len()
            invariant
                i <= entries@.len(),
                self.files_model() == old(self).files_model() + files_added(
                    prefix@,
                    model.take(i as int),
                ),
                self.pending_model() == old(self).pending_model() + dirs_added(
                    prefix@,
                    model.take(i as int),
                ),
            decreases entries@.len() - i,
        {
            proof {
                assert(model.take(i as int + 1).drop_last() =~= model.take(i as int));
                assert(model.take(i as int + 1).last() == model[i as int]);
            }
            let entry = &entries[i];
            if name_included(&entry.name) {
                match entry.kind {
                    EntryKind::Dir => {
                        let ghost pm = self.pending_model();
                        self.pending.push(join_path(prefix, &entry.name));
                        proof {
                            assert(self.pending_model() =~= pm.push(
                                joined(prefix@, model[i as int].0),
                            ));
                            assert(pm.push(joined(prefix@, model[i as int].0)) =~= old(
                                self,
                            ).pending_model() + dirs_added(prefix@, model.take(i as int + 1)));
                            assert(files_added(prefix@, model.take(i as int + 1)) =~= files_added(
                                prefix@,
                                model.take(i as int),
                            ));
                        }
                    },
                    EntryKind::File => {
                        let ghost fm = self.files_model();
                        self.files.push(join_path(prefix, &entry.name));
                        proof {
                            assert(self.files_model() =~= fm.push(
                                joined(prefix@, model[i as int].0),
                            ));
                            assert(fm.push(joined(prefix@, model[i as int].0)) =~= old(
                                self,
                            ).files_model() + files_added(prefix@, model.take(i as int + 1)));
                            assert(dirs_added(prefix@, model.take(i as int + 1)) =~= dirs_added(
                                prefix@,
                                model.take(i as int),
                            ));
                        }
                    },
                    EntryKind::Other => {
                        proof {
                            assert(files_added(prefix@, model.take(i as int + 1)) =~= files_added(
                                prefix@,
                                model.take(i as int),
                            ));
                            assert(dirs_added(prefix@, model.take(i as int + 1)) =~= dirs_added(
                                prefix@,
                                model.take(i as int),
                            ));
                        }
                    },
                }
            } else {
                proof {
                    assert(files_added(prefix@, model.take(i as int + 1)) =~= files_added(
                        prefix@,
                        model.take(i as int),
                    ));
                    assert(dirs_added(prefix@, model.take(i as int + 1)) =~= dirs_added(
                        prefix@,
                        model.take(i as int),
                    ));
                }
            }
            i = i + 1;
        }
        proof {
            assert(model.take(model.len() as int) =~= model);
        }
    }

    /// The files found, in the order they were recorded.
    pub fn into_files(self) -> (r: Vec<String>)
        ensures
            r@.map_values(|p: String| p@) == self.files_model(),
    {
        let Walker { pending: _, files } = self;
        files
    }
}

} // verus!
