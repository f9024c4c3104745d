//! The virtual file system: a hierarchy of folders containing file leaves,
//! one leaf per resource.
//!
//! Folders are stored as their full paths from the root; a folder's subtree
//! is exactly the set of paths it is a prefix of, so the hierarchy is acyclic
//! by construction and "is a descendant of" is a prefix test.

use crate::folder_graph_error::FolderGraphError;
use crate::paths::{
    child_path, clone_path, is_prefix_of, parent_of, parent_path, path_eq, path_is_prefix,
    FolderPath,
};
use crate::resources::Resource;
use crate::seq_facts::{lemma_filter_origin, lemma_filter_pairwise, lemma_filter_push};
use vstd::prelude::*;

verus! {

/// A file leaf: one named, typed resource sitting in a folder.
pub struct FileLeaf {
    /// The resource's name.
    pub name: String,
    /// The kind of resource this leaf stands for.
    pub resource: Resource,
    /// The sibling order index the leaf was inserted at.
    pub order: usize,
    /// The folder holding this leaf.
    pub parent: FolderPath,
}

/// The mathematical value of a [`FileLeaf`].
pub ghost struct FileModel {
    pub name: Seq<char>,
    pub resource: Resource,
    pub order: int,
    pub parent: Seq<Seq<char>>,
}

impl FileLeaf {
    /// The mathematical value of this leaf.
    pub open spec fn model(self) -> FileModel {
        FileModel {
            name: self.name@,
            resource: self.resource,
            order: self.order as int,
            parent: self.parent.deep_view(),
        }
    }

    /// Copies this leaf.
    pub fn clone_leaf(&self) -> (r: FileLeaf)
        ensures
            r.model() == self.model(),
    {
        let r = FileLeaf {
            name: self.name.clone(),
            resource: self.resource,
            order: self.order,
            parent: clone_path(&self.parent),
        };
        r
    }
}

/// Whether a path names a folder or a file leaf.
#[derive(Debug, PartialEq, Eq, Structural, Copy, Clone)]
pub enum PathKind {
    Folder,
    File,
}

/// The folder hierarchy together with the file leaves it holds.
pub struct FolderGraph {
    folders: Vec<FolderPath>,
    files: Vec<FileLeaf>,
}

/// The mathematical value of a sequence of leaves.
pub open spec fn files_model(s: Seq<FileLeaf>) -> Seq<FileModel> {
    s.map_values(|f: FileLeaf| f.model())
}

/// The first index in `s` whose leaf is named `name`, if any.
pub open spec fn first_file_named(s: Seq<FileModel>, name: Seq<char>) -> Option<int>
    decreases s.len(),
{
    if s.len() == 0 {
        None
    } else if s[0].name == name {
        Some(0)
    } else {
        match first_file_named(s.skip(1), name) {
            Some(i) => Some(i + 1),
            None => None,
        }
    }
}

/// What `first_file_named` promises: a match at the returned index and no
/// match before it.
pub proof fn lemma_first_file_named(s: Seq<FileModel>, name: Seq<char>)
    ensures
        match first_file_named(s, name) {
            Some(i) => 0 <= i < s.len() && s[i].name == name && forall|j: int|
                0 <= j < i ==> (#[trigger] s[j]).name != name,
            None => forall|j: int| 0 <= j < s.len() ==> (#[trigger] s[j]).name != name,
        },
    decreases s.len(),
{
    if s.len() > 0 && s[0].name != name {
        lemma_first_file_named(s.skip(1), name);
        match first_file_named(s.skip(1), name) {
            Some(i) => {
                assert forall|j: int| 0 <= j < i + 1 implies (#[trigger] s[j]).name != name by {
                    if j > 0 {
                        assert(s.skip(1)[j - 1] == s[j]);
                    }
                }
            },
            None => {
                assert forall|j: int| 0 <= j < s.len() implies (#[trigger] s[j]).name != name by {
                    if j > 0 {
                        assert(s.skip(1)[j - 1] == s[j]);
                    }
                }
            },
        }
    }
}

impl FolderGraph {
    /// The folders of the project, as full paths from the root, in creation
    /// order. The root itself is not listed.
    pub closed spec fn folders_view(&self) -> Seq<Seq<Seq<char>>> {
        self.folders.deep_view()
    }

    /// The file leaves of the project, in serialization order.
    pub closed spec fn files_view(&self) -> Seq<FileModel> {
        files_model(self.files@)
    }

    /// Whether a folder exists at `p`. The root is not a listed folder.
    pub open spec fn has_folder(&self, p: Seq<Seq<char>>) -> bool {
        self.folders_view().contains(p)
    }

    /// Whether `p` addresses a place files and folders can be put: the root
    /// or an existing folder.
    pub open spec fn is_location(&self, p: Seq<Seq<char>>) -> bool {
        p.len() == 0 || self.has_folder(p)
    }

    /// Whether a file named `name` sits directly in the folder at `parent`.
    pub open spec fn has_file_at(&self, parent: Seq<Seq<char>>, name: Seq<char>) -> bool {
        exists|i: int|
            0 <= i < self.files_view().len() && (#[trigger] self.files_view()[i]).parent == parent
                && self.files_view()[i].name == name
    }

    /// Whether the folder at `parent` already has a child (of either kind)
    /// named `name`.
    pub open spec fn child_occupied(&self, parent: Seq<Seq<char>>, name: Seq<char>) -> bool {
        self.has_folder(parent.push(name)) || self.has_file_at(parent, name)
    }

    /// Folder paths are non-empty and pairwise distinct.
    pub open spec fn folders_distinct(&self) -> bool {
        let fo = self.folders_view();
        &&& forall|i: int| 0 <= i < fo.len() ==> (#[trigger] fo[i]).len() > 0
        &&& forall|i: int, j: int|
            0 <= i < fo.len() && 0 <= j < fo.len() && i != j ==> #[trigger] fo[i] != #[trigger] fo[j]
    }

    /// Every strict, non-empty prefix of a folder path is itself a folder:
    /// folders hang off an unbroken chain of ancestors.
    pub open spec fn folders_prefix_closed(&self) -> bool {
        let fo = self.folders_view();
        forall|i: int, k: int|
            0 <= i < fo.len() && 1 <= k < fo[i].len() ==> self.has_folder(
                #[trigger] fo[i].subrange(0, k),
            )
    }

    /// Every file sits in the root or in an existing folder, no two files in
    /// one folder share a name, and no folder path collides with a file.
    pub open spec fn files_consistent(&self) -> bool {
        let fo = self.folders_view();
        let fi = self.files_view();
        &&& forall|i: int| 0 <= i < fi.len() ==> self.is_location((#[trigger] fi[i]).parent)
        &&& forall|i: int, j: int|
            0 <= i < fi.len() && 0 <= j < fi.len() && i != j ==> !((#[trigger] fi[i]).parent
                == (#[trigger] fi[j]).parent && fi[i].name == fi[j].name)
        &&& forall|i: int, j: int|
            0 <= i < fo.len() && 0 <= j < fi.len() ==> #[trigger] fo[i]
                != (#[trigger] fi[j]).parent.push(fi[j].name)
    }

    /// Structural well-formedness of the graph.
    pub open spec fn wf(&self) -> bool {
        &&& self.folders_distinct()
        &&& self.folders_prefix_closed()
        &&& self.files_consistent()
    }

    /// A graph holding only the root folder.
    pub fn new() -> (r: FolderGraph)
        ensures
            r.wf(),
            r.folders_view() == Seq::<Seq<Seq<char>>>::empty(),
            r.files_view() == Seq::<FileModel>::empty(),
    {
        let r = FolderGraph { folders: Vec::new(), files: Vec::new() };
        proof {
            assert(r.folders_view() =~= Seq::<Seq<Seq<char>>>::empty());
            assert(r.files_view() =~= Seq::<FileModel>::empty());
        }
        r
    }

    /// The number of file leaves in the whole graph.
    pub fn file_count(&self) -> (r: usize)
        ensures
            r == self.files_view().len(),
    {
        self.files.len()
    }

    /// The index of the folder at `p`, if one exists.
    fn find_folder(&self, p: &FolderPath) -> (r: Option<usize>)
        ensures
            match r {
                Some(i) => 0 <= i < self.folders_view().len() && self.folders_view()[i as int]
                    == p.deep_view(),
                None => !self.has_folder(p.deep_view()),
            },
    {
        let mut i: usize = 0;
        while i < self.folders.len()
            invariant
                i <= self.folders.len(),
                forall|j: int| 0 <= j < i ==> self.folders_view()[j] != p.deep_view(),
            decreases self.folders.len() - i,
        {
            if path_eq(&self.folders[i], p) {
                return Some(i);
            }
            i += 1;
        }
        None
    }

    /// Whether a folder exists at `p`, executably.
    pub fn folder_exists(&self, p: &FolderPath) -> (r: bool)
        ensures
            r == self.has_folder(p.deep_view()),
    {
        self.find_folder(p).is_some()
    }

    /// Whether `p` addresses the root or an existing folder, executably.
    pub fn location_exists(&self, p: &FolderPath) -> (r: bool)
        ensures
            r == self.is_location(p.deep_view()),
    {
        p.len() == 0 || self.folder_exists(p)
    }

    /// The index of the file named `name` in the folder at `parent`, if any.
    fn find_file_at(&self, parent: &FolderPath, name: &String) -> (r: Option<usize>)
        ensures
            match r {
                Some(i) => 0 <= i < self.files_view().len() && self.files_view()[i as int].parent
                    == parent.deep_view() && self.files_view()[i as int].name == name@,
                None => !self.has_file_at(parent.deep_view(), name@),
            },
    {
        let mut i: usize = 0;
        while i < self.files.len()
            invariant
                i <= self.files.len(),
                forall|j: int|
                    0 <= j < i ==> !((#[trigger] self.files_view()[j]).parent == parent.deep_view()
                        && self.files_view()[j].name == name@),
            decreases self.files.len() - i,
        {
            if path_eq(&self.files[i].parent, parent) && self.files[i].name == *name {
                return Some(i);
            }
            i += 1;
        }
        None
    }

    /// Whether a file named `name` sits in the folder at `parent`, executably.
    pub fn file_exists_at(&self, parent: &FolderPath, name: &String) -> (r: bool)
        ensures
            r == self.has_file_at(parent.deep_view(), name@),
    {
        self.find_file_at(parent, name).is_some()
    }

    /// Whether the folder at `parent` already has a child named `name`,
    /// executably.
    pub fn child_is_occupied(&self, parent: &FolderPath, name: &String) -> (r: bool)
        ensures
            r == self.child_occupied(parent.deep_view(), name@),
    {
        let child = child_path(parent, name);
        self.folder_exists(&child) || self.file_exists_at(parent, name)
    }

    /// The number of children (folders and files alike) sitting directly in
    /// the folder at `p`.
    pub open spec fn spec_child_count(&self, p: Seq<Seq<char>>) -> int {
        count_matching_folders(self.folders_view(), p) + count_matching_files(
            self.files_view(),
            p,
        )
    }

    /// Counts the children of the folder at `p`, executably.
    pub fn child_count(&self, p: &FolderPath) -> (r: usize)
        requires
            self.folders_view().len() + self.files_view().len() <= usize::MAX,
        ensures
            r == self.spec_child_count(p.deep_view()),
    {
        let ghost pd = p.deep_view();
        let mut r: usize = 0;
        let mut i: usize = 0;
        while i < self.folders.len()
            invariant
                i <= self.folders.len(),
                r == count_matching_folders(self.folders_view().take(i as int), pd),
                r <= i,
                pd == p.deep_view(),
            decreases self.folders.len() - i,
        {
            proof {
                assert(self.folders_view().take(i + 1).drop_last() =~= self.folders_view().take(
                    i as int,
                ));
            }
            if self.folders[i].len() > 0 && path_eq(&parent_path(&self.folders[i]), p) {
                r += 1;
            }
            i += 1;
        }
        proof {
            assert(self.folders_view().take(self.folders_view().len() as int)
                =~= self.folders_view());
        }
        let mut j: usize = 0;
        let folder_part = r;
        while j < self.files.len()
            invariant
                j <= self.files.len(),
                folder_part == count_matching_folders(self.folders_view(), pd),
                r == folder_part + count_matching_files(self.files_view().take(j as int), pd),
                r <= folder_part + j,
                folder_part <= self.folders_view().len(),
                pd == p.deep_view(),
                self.folders_view().len() + self.files_view().len() <= usize::MAX,
            decreases self.files.len() - j,
        {
            proof {
                assert(self.files_view().take(j + 1).drop_last() =~= self.files_view().take(
                    j as int,
                ));
            }
            if path_eq(&self.files[j].parent, p) {
                r += 1;
            }
            j += 1;
        }
        proof {
            assert(self.files_view().take(self.files_view().len() as int) =~= self.files_view());
        }
        r
    }

    /// Creates a folder named `name` in the folder at `parent`.
    ///
    /// Fails with `PathNotFound` if `parent` does not exist, and with
    /// `FolderAlreadyPresent` / `FileAlreadyPresent` if the name is taken.
    pub fn insert_folder(&mut self, parent: &FolderPath, name: &String) -> (r: Result<
        (),
        FolderGraphError,
    >)
        requires
            old(self).wf(),
        ensures
            final(self).wf(),
            match r {
                Ok(()) => {
                    &&& old(self).is_location(parent.deep_view())
                    &&& !old(self).child_occupied(parent.deep_view(), name@)
                    &&& final(self).folders_view() == old(self).folders_view().push(
                        parent.deep_view().push(name@),
                    )
                    &&& final(self).files_view() == old(self).files_view()
                },
                Err(e) => {
                    &&& *final(self) == *old(self)
                    &&& match e {
                        FolderGraphError::PathNotFound => !old(self).is_location(
                            parent.deep_view(),
                        ),
                        FolderGraphError::FolderAlreadyPresent => old(self).has_folder(
                            parent.deep_view().push(name@),
                        ),
                        FolderGraphError::FileAlreadyPresent => old(self).has_file_at(
                            parent.deep_view(),
                            name@,
                        ),
                        _ => false,
                    }
                },
            },
    {
        if !self.location_exists(parent) {
            return Err(FolderGraphError::PathNotFound);
        }
        let child = child_path(parent, name);
        if self.folder_exists(&child) {
            return Err(FolderGraphError::FolderAlreadyPresent);
        }
        if self.file_exists_at(parent, name) {
            return Err(FolderGraphError::FileAlreadyPresent);
        }
        let ghost old_self = *self;
        let ghost q = parent.deep_view().push(name@);
        self.folders.push(child);
        proof {
            assert(self.folders_view() =~= old_self.folders_view().push(q));
            assert(self.files_view() =~= old_self.files_view());
            lemma_insert_folder_wf(old_self, *self, parent.deep_view(), name@);
        }
        Ok(())
    }

    /// Creates a file leaf named `name` in the folder at `parent`, at the
    /// given sibling order index.
    ///
    /// Fails with `PathNotFound` if `parent` does not exist, and with
    /// `FolderAlreadyPresent` / `FileAlreadyPresent` if the name is taken.
    pub fn insert_file(
        &mut self,
        parent: &FolderPath,
        name: &String,
        resource: Resource,
        order: usize,
    ) -> (r: Result<(), FolderGraphError>)
        requires
            old(self).wf(),
        ensures
            final(self).wf(),
            match r {
                Ok(()) => {
                    &&& old(self).is_location(parent.deep_view())
                    &&& !old(self).child_occupied(parent.deep_view(), name@)
                    &&& final(self).files_view() == old(self).files_view().push(
                        FileModel {
                            name: name@,
                            resource,
                            order: order as int,
                            parent: parent.deep_view(),
                        },
                    )
                    &&& final(self).folders_view() == old(self).folders_view()
                },
                Err(e) => {
                    &&& *final(self) == *old(self)
                    &&& match e {
                        FolderGraphError::PathNotFound => !old(self).is_location(
                            parent.deep_view(),
                        ),
                        FolderGraphError::FolderAlreadyPresent => old(self).has_folder(
                            parent.deep_view().push(name@),
                        ),
                        FolderGraphError::FileAlreadyPresent => old(self).has_file_at(
                            parent.deep_view(),
                            name@,
                        ),
                        _ => false,
                    }
                },
            },
    {
        if !self.location_exists(parent) {
            return Err(FolderGraphError::PathNotFound);
        }
        let child = child_path(parent, name);
        if self.folder_exists(&child) {
            return Err(FolderGraphError::FolderAlreadyPresent);
        }
        if self.file_exists_at(parent, name) {
            return Err(FolderGraphError::FileAlreadyPresent);
        }
        let ghost old_self = *self;
        let leaf = FileLeaf {
            name: name.clone(),
            resource,
            order,
            parent: clone_path(parent),
        };
        self.files.push(leaf);
        proof {
            assert(self.files_view() =~= old_self.files_view().push(
                FileModel {
                    name: name@,
                    resource,
                    order: order as int,
                    parent: parent.deep_view(),
                },
            ));
            assert(self.folders_view() =~= old_self.folders_view());
            assert(self.files_view().drop_last() =~= old_self.files_view());
            lemma_insert_file_wf(old_self, *self, parent.deep_view(), name@);
        }
        Ok(())
    }
}

/// Where the item at `p` lands when the item rooted at `start` is moved into
/// the folder at `end`: paths at or below `start` are rebased under `end`
/// (keeping the moved item's own name), everything else stays put.
pub open spec fn moved_path(
    p: Seq<Seq<char>>,
    start: Seq<Seq<char>>,
    end: Seq<Seq<char>>,
) -> Seq<Seq<char>>
    recommends
        start.len() > 0,
{
    if is_prefix_of(start, p) {
        end + p.skip(start.len() - 1)
    } else {
        p
    }
}

/// The leaf `f` with its parent rebased by a folder move.
pub open spec fn moved_file(f: FileModel, start: Seq<Seq<char>>, end: Seq<Seq<char>>) -> FileModel {
    FileModel {
        name: f.name,
        resource: f.resource,
        order: f.order,
        parent: moved_path(f.parent, start, end),
    }
}

impl FolderGraph {
    /// The position of the file named `name` in the folder at `parent`; in a
    /// well-formed graph there is at most one.
    pub open spec fn spec_file_index_at(&self, parent: Seq<Seq<char>>, name: Seq<char>) -> int {
        choose|i: int|
            0 <= i < self.files_view().len() && (#[trigger] self.files_view()[i]).parent == parent
                && self.files_view()[i].name == name
    }

    /// Whether the folder at `p` has any direct child, folder or file.
    pub open spec fn has_child(&self, p: Seq<Seq<char>>) -> bool {
        ||| exists|i: int|
            0 <= i < self.folders_view().len() && (#[trigger] self.folders_view()[i]).len() > 0
                && parent_of(self.folders_view()[i]) == p
        ||| exists|i: int|
            0 <= i < self.files_view().len() && (#[trigger] self.files_view()[i]).parent == p
    }

    /// Whether the folder at `p` has any direct child, executably.
    pub fn any_child(&self, p: &FolderPath) -> (r: bool)
        ensures
            r == self.has_child(p.deep_view()),
    {
        let mut i: usize = 0;
        while i < self.folders.len()
            invariant
                i <= self.folders.len(),
                forall|j: int|
                    0 <= j < i ==> !((#[trigger] self.folders_view()[j]).len() > 0 && parent_of(
                        self.folders_view()[j],
                    ) == p.deep_view()),
            decreases self.folders.len() - i,
        {
            if self.folders[i].len() > 0 && path_eq(&parent_path(&self.folders[i]), p) {
                proof {
                    assert((self.folders_view()[i as int]).len() > 0 && parent_of(
                        self.folders_view()[i as int],
                    ) == p.deep_view());
                }
                return true;
            }
            i += 1;
        }
        let mut j: usize = 0;
        while j < self.files.len()
            invariant
                j <= self.files.len(),
                forall|k: int|
                    0 <= k < j ==> (#[trigger] self.files_view()[k]).parent != p.deep_view(),
                forall|k: int|
                    0 <= k < self.folders_view().len() ==> !((
                    #[trigger] self.folders_view()[k]).len() > 0 && parent_of(
                        self.folders_view()[k],
                    ) == p.deep_view()),
            decreases self.files.len() - j,
        {
            if path_eq(&self.files[j].parent, p) {
                proof {
                    assert((self.files_view()[j as int]).parent == p.deep_view());
                }
                return true;
            }
            j += 1;
        }
        false
    }

    /// Which error a move of the item at `start` into the folder at `end`
    /// fails with, if any.
    pub open spec fn spec_move_check(
        &self,
        start: Seq<Seq<char>>,
        end: Seq<Seq<char>>,
    ) -> Option<FolderGraphError> {
        if start.len() == 0 {
            Some(FolderGraphError::InvalidMove)
        } else if !self.is_location(end) {
            Some(FolderGraphError::PathNotFound)
        } else if self.has_folder(start) {
            if is_prefix_of(start, end) {
                Some(FolderGraphError::InvalidMove)
            } else if self.has_folder(end.push(start.last())) {
                Some(FolderGraphError::FolderAlreadyPresent)
            } else if self.has_file_at(end, start.last()) {
                Some(FolderGraphError::FileAlreadyPresent)
            } else {
                None
            }
        } else if self.has_file_at(parent_of(start), start.last()) {
            if self.has_folder(end.push(start.last())) {
                Some(FolderGraphError::FolderAlreadyPresent)
            } else if self.has_file_at(end, start.last()) {
                Some(FolderGraphError::FileAlreadyPresent)
            } else {
                None
            }
        } else {
            Some(FolderGraphError::PathNotFound)
        }
    }

    /// Moves the folder or file at `start` into the folder at `end`.
    ///
    /// Fails with `InvalidMove` when `start` is the root or `end` lies at or
    /// below the moved folder (the cycle check), with `PathNotFound` when an
    /// endpoint is missing, and with `FolderAlreadyPresent` /
    /// `FileAlreadyPresent` when the destination name is taken.
    pub fn move_item(&mut self, start: &FolderPath, end: &FolderPath) -> (r: Result<
        (),
        FolderGraphError,
    >)
        requires
            old(self).wf(),
        ensures
            final(self).wf(),
            match r {
                Ok(()) => {
                    &&& old(self).spec_move_check(start.deep_view(), end.deep_view()) is None
                    &&& if old(self).has_folder(start.deep_view()) {
                        &&& final(self).folders_view() == old(self).folders_view().map_values(
                            |p: Seq<Seq<char>>| moved_path(p, start.deep_view(), end.deep_view()),
                        )
                        &&& final(self).files_view() == old(self).files_view().map_values(
                            |f: FileModel| moved_file(f, start.deep_view(), end.deep_view()),
                        )
                    } else {
                        let i = old(self).spec_file_index_at(
                            parent_of(start.deep_view()),
                            start.deep_view().last(),
                        );
                        &&& old(self).has_file_at(
                            parent_of(start.deep_view()),
                            start.deep_view().last(),
                        )
                        &&& final(self).folders_view() == old(self).folders_view()
                        &&& final(self).files_view() == old(self).files_view().update(
                            i,
                            (FileModel {
                                name: old(self).files_view()[i].name,
                                resource: old(self).files_view()[i].resource,
                                order: old(self).files_view()[i].order,
                                parent: end.deep_view(),
                            }),
                        )
                    }
                },
                Err(e) => {
                    &&& *final(self) == *old(self)
                    &&& Some(e) == old(self).spec_move_check(start.deep_view(), end.deep_view())
                },
            },
    {
        let ghost s = start.deep_view();
        let ghost e = end.deep_view();
        if start.len() == 0 {
            return Err(FolderGraphError::InvalidMove);
        }
        if !self.location_exists(end) {
            return Err(FolderGraphError::PathNotFound);
        }
        let name: String = start[start.len() - 1].clone();
        proof {
            assert(name@ == s.last());
        }
        let start_parent = parent_path(start);
        if self.folder_exists(start) {
            if path_is_prefix(start, end) {
                return Err(FolderGraphError::InvalidMove);
            }
            let target = child_path(end, &name);
            if self.folder_exists(&target) {
                return Err(FolderGraphError::FolderAlreadyPresent);
            }
            if self.file_exists_at(end, &name) {
                return Err(FolderGraphError::FileAlreadyPresent);
            }
            let ghost pre = *self;
            let mut new_folders: Vec<FolderPath> = Vec::new();
            let mut i: usize = 0;
            while i < self.folders.len()
                invariant
                    i <= self.folders.len(),
                    *self == pre,
                    s.len() > 0,
                    s == start.deep_view(),
                    e == end.deep_view(),
                    new_folders.deep_view().len() == i,
                    forall|j: int|
                        0 <= j < i ==> new_folders.deep_view()[j] == moved_path(
                            #[trigger] pre.folders_view()[j],
                            s,
                            e,
                        ),
                decreases self.folders.len() - i,
            {
                if path_is_prefix(start, &self.folders[i]) {
                    let np = rebased_path(&self.folders[i], start, end);
                    new_folders.push(np);
                } else {
                    let np = clone_path(&self.folders[i]);
                    new_folders.push(np);
                }
                proof {
                    assert(new_folders.deep_view().len() == i + 1);
                }
                i += 1;
            }
            let mut new_files: Vec<FileLeaf> = Vec::new();
            let mut j: usize = 0;
            while j < self.files.len()
                invariant
                    j <= self.files.len(),
                    *self == pre,
                    s.len() > 0,
                    s == start.deep_view(),
                    e == end.deep_view(),
                    new_files@.len() == j,
                    forall|k: int|
                        0 <= k < j ==> files_model(new_files@)[k] == moved_file(
                            #[trigger] pre.files_view()[k],
                            s,
                            e,
                        ),
                decreases self.files.len() - j,
            {
                let leaf = &self.files[j];
                let new_parent: FolderPath = if path_is_prefix(start, &leaf.parent) {
                    rebased_path(&leaf.parent, start, end)
                } else {
                    clone_path(&leaf.parent)
                };
                let nl = FileLeaf {
                    name: leaf.name.clone(),
                    resource: leaf.resource,
                    order: leaf.order,
                    parent: new_parent,
                };
                new_files.push(nl);
                j += 1;
            }
            self.folders = new_folders;
            self.files = new_files;
            proof {
                assert(self.folders_view() =~= pre.folders_view().map_values(
                    |p: Seq<Seq<char>>| moved_path(p, s, e),
                ));
                assert(self.files_view() =~= pre.files_view().map_values(
                    |f: FileModel| moved_file(f, s, e),
                ));
                lemma_move_folder_wf(pre, *self, s, e);
            }
            Ok(())
        } else {
            match self.find_file_at(&start_parent, &name) {
                None => Err(FolderGraphError::PathNotFound),
                Some(idx) => {
                    let target = child_path(end, &name);
                    if self.folder_exists(&target) {
                        return Err(FolderGraphError::FolderAlreadyPresent);
                    }
                    if self.file_exists_at(end, &name) {
                        return Err(FolderGraphError::FileAlreadyPresent);
                    }
                    let ghost pre = *self;
                    let leaf = self.files.remove(idx);
                    let moved = FileLeaf {
                        name: leaf.name,
                        resource: leaf.resource,
                        order: leaf.order,
                        parent: clone_path(end),
                    };
                    self.files.insert(idx, moved);
                    proof {
                        let fm = FileModel {
                            name: pre.files_view()[idx as int].name,
                            resource: pre.files_view()[idx as int].resource,
                            order: pre.files_view()[idx as int].order,
                            parent: e,
                        };
                        assert(self.files_view() =~= pre.files_view().update(idx as int, fm));
                        assert(pre.spec_file_index_at(parent_of(s), s.last()) == idx as int) by {
                            let ci = pre.spec_file_index_at(parent_of(s), s.last());
                            assert(0 <= ci < pre.files_view().len() && pre.files_view()[ci].parent
                                == parent_of(s) && pre.files_view()[ci].name == s.last());
                        }
                        lemma_move_file_wf(pre, *self, idx as int, e, s.last());
                    }
                    Ok(())
                },
            }
        }
    }

    /// Which error deleting the folder at `p` fails with, if any.
    pub open spec fn spec_delete_check(
        &self,
        p: Seq<Seq<char>>,
        recursive: bool,
    ) -> Option<FolderGraphError> {
        if p.len() == 0 {
            Some(FolderGraphError::BadRemove)
        } else if !self.has_folder(p) {
            Some(FolderGraphError::PathNotFound)
        } else if !recursive && self.has_child(p) {
            Some(FolderGraphError::NotEmpty)
        } else {
            None
        }
    }

    /// Deletes the folder at `path`. Without `recursive` the folder must be
    /// empty; with it the whole subtree is removed and every file leaf it
    /// contained is returned, in serialization order, so the caller can
    /// cascade resource deletion.
    pub fn delete_folder(&mut self, path: &FolderPath, recursive: bool) -> (r: Result<
        Vec<FileLeaf>,
        FolderGraphError,
    >)
        requires
            old(self).wf(),
        ensures
            final(self).wf(),
            match r {
                Ok(leaves) => {
                    &&& old(self).spec_delete_check(path.deep_view(), recursive) is None
                    &&& final(self).folders_view() == old(self).folders_view().filter(
                        |q: Seq<Seq<char>>| !is_prefix_of(path.deep_view(), q),
                    )
                    &&& final(self).files_view() == old(self).files_view().filter(
                        |f: FileModel| !is_prefix_of(path.deep_view(), f.parent),
                    )
                    &&& files_model(leaves@) == old(self).files_view().filter(
                        |f: FileModel| is_prefix_of(path.deep_view(), f.parent),
                    )
                },
                Err(e) => {
                    &&& *final(self) == *old(self)
                    &&& Some(e) == old(self).spec_delete_check(path.deep_view(), recursive)
                },
            },
    {
        let ghost pd = path.deep_view();
        if path.len() == 0 {
            return Err(FolderGraphError::BadRemove);
        }
        if !self.folder_exists(path) {
            return Err(FolderGraphError::PathNotFound);
        }
        if !recursive && self.any_child(path) {
            return Err(FolderGraphError::NotEmpty);
        }
        let ghost pre = *self;
        let mut kept_folders: Vec<FolderPath> = Vec::new();
        let mut i: usize = 0;
        while i < self.folders.len()
            invariant
                i <= self.folders.len(),
                *self == pre,
                pd == path.deep_view(),
                kept_folders.deep_view() == pre.folders_view().take(i as int).filter(
                    |q: Seq<Seq<char>>| !is_prefix_of(pd, q),
                ),
            decreases self.folders.len() - i,
        {
            proof {
                assert(pre.folders_view().take(i + 1) =~= pre.folders_view().take(i as int).push(
                    pre.folders_view()[i as int],
                ));
                lemma_filter_push(
                    pre.folders_view().take(i as int),
                    |q: Seq<Seq<char>>| !is_prefix_of(pd, q),
                    pre.folders_view()[i as int],
                );
            }
            if !path_is_prefix(path, &self.folders[i]) {
                let np = clone_path(&self.folders[i]);
                kept_folders.push(np);
                proof {
                    assert(kept_folders.deep_view() =~= pre.folders_view().take(i + 1).filter(
                        |q: Seq<Seq<char>>| !is_prefix_of(pd, q),
                    ));
                }
            }
            i += 1;
        }
        let mut kept_files: Vec<FileLeaf> = Vec::new();
        let mut removed: Vec<FileLeaf> = Vec::new();
        let mut j: usize = 0;
        while j < self.files.len()
            invariant
                j <= self.files.len(),
                *self == pre,
                pd == path.deep_view(),
                files_model(kept_files@) == pre.files_view().take(j as int).filter(
                    |f: FileModel| !is_prefix_of(pd, f.parent),
                ),
                files_model(removed@) == pre.files_view().take(j as int).filter(
                    |f: FileModel| is_prefix_of(pd, f.parent),
                ),
            decreases self.files.len() - j,
        {
            proof {
                assert(pre.files_view().take(j + 1) =~= pre.files_view().take(j as int).push(
                    pre.files_view()[j as int],
                ));
                lemma_filter_push(
                    pre.files_view().take(j as int),
                    |f: FileModel| !is_prefix_of(pd, f.parent),
                    pre.files_view()[j as int],
                );
                lemma_filter_push(
                    pre.files_view().take(j as int),
                    |f: FileModel| is_prefix_of(pd, f.parent),
                    pre.files_view()[j as int],
                );
            }
            let leaf = self.files[j].clone_leaf();
            if !path_is_prefix(path, &leaf.parent) {
                kept_files.push(leaf);
                proof {
                    assert(files_model(kept_files@) =~= pre.files_view().take(j + 1).filter(
                        |f: FileModel| !is_prefix_of(pd, f.parent),
                    ));
                }
            } else {
                removed.push(leaf);
                proof {
                    assert(files_model(removed@) =~= pre.files_view().take(j + 1).filter(
                        |f: FileModel| is_prefix_of(pd, f.parent),
                    ));
                }
            }
            j += 1;
        }
        self.folders = kept_folders;
        self.files = kept_files;
        proof {
            assert(pre.folders_view().take(pre.folders_view().len() as int)
                =~= pre.folders_view());
            assert(pre.files_view().take(pre.files_view().len() as int) =~= pre.files_view());
            lemma_delete_wf(pre, *self, pd);
        }
        Ok(removed)
    }

    /// Removes the first file leaf named `name`, wherever it sits, and
    /// returns it. In an engine-managed graph resource names are globally
    /// unique, so "first" is "the".
    pub fn remove_file_named(&mut self, name: &String) -> (r: Option<FileLeaf>)
        requires
            old(self).wf(),
        ensures
            final(self).wf(),
            final(self).folders_view() == old(self).folders_view(),
            match first_file_named(old(self).files_view(), name@) {
                Some(i) => {
                    &&& r matches Some(leaf) && leaf.model() == old(self).files_view()[i]
                    &&& final(self).files_view() == old(self).files_view().remove(i)
                },
                None => r is None && *final(self) == *old(self),
            },
    {
        proof {
            lemma_first_file_named(old(self).files_view(), name@);
        }
        let mut i: usize = 0;
        while i < self.files.len()
            invariant
                i <= self.files.len(),
                *self == *old(self),
                old(self).wf(),
                forall|j: int| 0 <= j < i ==> (#[trigger] self.files_view()[j]).name != name@,
            decreases self.files.len() - i,
        {
            if self.files[i].name == *name {
                proof {
                    assert(self.files_view()[i as int].name == name@);
                }
                let ghost pre = *self;
                let leaf = self.files.remove(i);
                proof {
                    lemma_first_file_named(pre.files_view(), name@);
                    assert(self.files_view() =~= pre.files_view().remove(i as int));
                    match first_file_named(pre.files_view(), name@) {
                        Some(w) => {
                            assert(pre.files_view()[w].name == name@);
                            assert(w == i as int);
                        },
                        None => {
                            assert(pre.files_view()[i as int].name == name@);
                        },
                    }
                    lemma_remove_file_wf(pre, *self, i as int);
                }
                return Some(leaf);
            }
            i += 1;
        }
        None
    }

    /// The kind of item at `p`: the root and folders answer `Folder`, file
    /// leaves answer `File`, anything else is `PathNotFound`.
    pub fn get_path_type(&self, p: &FolderPath) -> (r: Result<PathKind, FolderGraphError>)
        ensures
            match r {
                Ok(PathKind::Folder) => self.is_location(p.deep_view()),
                Ok(PathKind::File) => p.deep_view().len() > 0 && self.has_file_at(
                    parent_of(p.deep_view()),
                    p.deep_view().last(),
                ),
                Err(e) => {
                    &&& e is PathNotFound
                    &&& !self.is_location(p.deep_view())
                    &&& p.deep_view().len() > 0 ==> !self.has_file_at(
                        parent_of(p.deep_view()),
                        p.deep_view().last(),
                    )
                },
            },
    {
        if self.location_exists(p) {
            return Ok(PathKind::Folder);
        }
        let parent = parent_path(p);
        let name = &p[p.len() - 1];
        proof {
            assert(name@ == p.deep_view().last());
        }
        if self.file_exists_at(&parent, name) {
            Ok(PathKind::File)
        } else {
            Err(FolderGraphError::PathNotFound)
        }
    }

    /// Copies of every folder path and file leaf in the graph, in order.
    pub fn get_full_vfs(&self) -> (r: (Vec<FolderPath>, Vec<FileLeaf>))
        ensures
            r.0.deep_view() == self.folders_view(),
            files_model(r.1@) == self.files_view(),
    {
        let mut folders: Vec<FolderPath> = Vec::new();
        let mut i: usize = 0;
        while i < self.folders.len()
            invariant
                i <= self.folders.len(),
                folders.deep_view().len() == i,
                forall|j: int| 0 <= j < i ==> folders.deep_view()[j] == self.folders_view()[j],
            decreases self.folders.len() - i,
        {
            let np = clone_path(&self.folders[i]);
            folders.push(np);
            i += 1;
        }
        let mut files: Vec<FileLeaf> = Vec::new();
        let mut j: usize = 0;
        while j < self.files.len()
            invariant
                j <= self.files.len(),
                files@.len() == j,
                forall|k: int| 0 <= k < j ==> files_model(files@)[k] == self.files_view()[k],
            decreases self.files.len() - j,
        {
            let leaf = self.files[j].clone_leaf();
            files.push(leaf);
            j += 1;
        }
        proof {
            assert(folders.deep_view() =~= self.folders_view());
            assert(files_model(files@) =~= self.files_view());
        }
        (folders, files)
    }

    /// The subtree rooted at `path`: every folder at or below it and every
    /// file leaf contained in it, in order.
    ///
    /// Fails with `PathNotFound` when `path` is neither the root nor a
    /// folder.
    pub fn get_folder(&self, path: &FolderPath) -> (r: Result<
        (Vec<FolderPath>, Vec<FileLeaf>),
        FolderGraphError,
    >)
        ensures
            match r {
                Ok(sub) => {
                    &&& self.is_location(path.deep_view())
                    &&& sub.0.deep_view() == self.folders_view().filter(
                        |q: Seq<Seq<char>>| is_prefix_of(path.deep_view(), q),
                    )
                    &&& files_model(sub.1@) == self.files_view().filter(
                        |f: FileModel| is_prefix_of(path.deep_view(), f.parent),
                    )
                },
                Err(e) => e is PathNotFound && !self.is_location(path.deep_view()),
            },
    {
        let ghost pd = path.deep_view();
        if !self.location_exists(path) {
            return Err(FolderGraphError::PathNotFound);
        }
        let mut folders: Vec<FolderPath> = Vec::new();
        let mut i: usize = 0;
        while i < self.folders.len()
            invariant
                i <= self.folders.len(),
                pd == path.deep_view(),
                folders.deep_view() == self.folders_view().take(i as int).filter(
                    |q: Seq<Seq<char>>| is_prefix_of(pd, q),
                ),
            decreases self.folders.len() - i,
        {
            proof {
                assert(self.folders_view().take(i + 1) =~= self.folders_view().take(i as int).push(
                    self.folders_view()[i as int],
                ));
                lemma_filter_push(
                    self.folders_view().take(i as int),
                    |q: Seq<Seq<char>>| is_prefix_of(pd, q),
                    self.folders_view()[i as int],
                );
            }
            if path_is_prefix(path, &self.folders[i]) {
                let np = clone_path(&self.folders[i]);
                folders.push(np);
                proof {
                    assert(folders.deep_view() =~= self.folders_view().take(i + 1).filter(
                        |q: Seq<Seq<char>>| is_prefix_of(pd, q),
                    ));
                }
            }
            i += 1;
        }
        let mut files: Vec<FileLeaf> = Vec::new();
        let mut j: usize = 0;
        while j < self.files.len()
            invariant
                j <= self.files.len(),
                pd == path.deep_view(),
                files_model(files@) == self.files_view().take(j as int).filter(
                    |f: FileModel| is_prefix_of(pd, f.parent),
                ),
            decreases self.files.len() - j,
        {
            proof {
                assert(self.files_view().take(j + 1) =~= self.files_view().take(j as int).push(
                    self.files_view()[j as int],
                ));
                lemma_filter_push(
                    self.files_view().take(j as int),
                    |f: FileModel| is_prefix_of(pd, f.parent),
                    self.files_view()[j as int],
                );
            }
            if path_is_prefix(path, &self.files[j].parent) {
                let leaf = self.files[j].clone_leaf();
                files.push(leaf);
                proof {
                    assert(files_model(files@) =~= self.files_view().take(j + 1).filter(
                        |f: FileModel| is_prefix_of(pd, f.parent),
                    ));
                }
            }
            j += 1;
        }
        proof {
            assert(self.folders_view().take(self.folders_view().len() as int)
                =~= self.folders_view());
            assert(self.files_view().take(self.files_view().len() as int) =~= self.files_view());
        }
        Ok((folders, files))
    }
}

/// The path `p`, which lies at or below `start`, rebased under `end`.
fn rebased_path(p: &FolderPath, start: &FolderPath, end: &FolderPath) -> (r: FolderPath)
    requires
        start.deep_view().len() > 0,
        is_prefix_of(start.deep_view(), p.deep_view()),
    ensures
        r.deep_view() == end.deep_view() + p.deep_view().skip(start.deep_view().len() - 1),
{
    let mut r = clone_path(end);
    proof {
        assert(r.deep_view() =~= end.deep_view() + p.deep_view().subrange(
            start.deep_view().len() - 1,
            start.deep_view().len() - 1,
        ));
    }
    let mut k: usize = start.len() - 1;
    while k < p.len()
        invariant
            start.len() - 1 <= k <= p.len(),
            start.deep_view().len() == start.len(),
            start.deep_view().len() > 0,
            is_prefix_of(start.deep_view(), p.deep_view()),
            r.deep_view() == end.deep_view() + p.deep_view().subrange(
                start.deep_view().len() - 1,
                k as int,
            ),
        decreases p.len() - k,
    {
        let ghost prev = r.deep_view();
        let seg = p[k].clone();
        proof {
            assert(seg@ == p.deep_view()[k as int]);
        }
        r.push(seg);
        proof {
            assert(r.deep_view() =~= prev.push(p.deep_view()[k as int]));
            let sl = start.deep_view().len() as int;
            let lhs = prev.push(p.deep_view()[k as int]);
            let rhs = end.deep_view() + p.deep_view().subrange(sl - 1, k + 1);
            assert(lhs.len() == rhs.len());
            assert forall|x: int| 0 <= x < lhs.len() implies #[trigger] lhs[x] == rhs[x] by {
                if x < end.deep_view().len() {
                    assert(lhs[x] == prev[x]);
                    assert(prev[x] == end.deep_view()[x]);
                } else if x < lhs.len() - 1 {
                    assert(lhs[x] == prev[x]);
                    assert(prev[x] == p.deep_view().subrange(sl - 1, k as int)[x
                        - end.deep_view().len()]);
                    assert(rhs[x] == p.deep_view().subrange(sl - 1, k + 1)[x
                        - end.deep_view().len()]);
                } else {
                    assert(lhs[x] == p.deep_view()[k as int]);
                    assert(rhs[x] == p.deep_view().subrange(sl - 1, k + 1)[x
                        - end.deep_view().len()]);
                }
            }
            assert(lhs =~= rhs);
        }
        k += 1;
    }
    proof {
        assert(p.deep_view().subrange(start.deep_view().len() - 1, p.deep_view().len() as int)
            =~= p.deep_view().skip(start.deep_view().len() - 1));
    }
    r
}

/// In a well-formed graph, if no folder sits at `q`, no folder sits below
/// `q` either.
proof fn lemma_no_location_below(g: FolderGraph, q: Seq<Seq<char>>)
    requires
        g.wf(),
        q.len() > 0,
        !g.has_folder(q),
    ensures
        forall|p: Seq<Seq<char>>| g.has_folder(p) ==> !is_prefix_of(q, p),
{
    assert forall|p: Seq<Seq<char>>| g.has_folder(p) implies !is_prefix_of(q, p) by {
        if is_prefix_of(q, p) {
            let w = choose|w: int|
                0 <= w < g.folders_view().len() && g.folders_view()[w] == p;
            if p.len() == q.len() {
                assert(p =~= q);
            } else {
                assert(1 <= q.len() < g.folders_view()[w].len());
                assert(g.has_folder(g.folders_view()[w].subrange(0, q.len() as int)));
                assert(g.folders_view()[w].subrange(0, q.len() as int) =~= q);
            }
        }
    }
}

/// Rebasing distributes over extending a path by one segment.
proof fn lemma_moved_path_push(
    parent: Seq<Seq<char>>,
    name: Seq<char>,
    s: Seq<Seq<char>>,
    e: Seq<Seq<char>>,
)
    requires
        s.len() > 0,
        is_prefix_of(s, parent),
    ensures
        moved_path(parent, s, e).push(name) == moved_path(parent.push(name), s, e),
{
    assert(is_prefix_of(s, parent.push(name)));
    assert((e + parent.skip(s.len() - 1)).push(name) =~= e + (parent.push(name)).skip(s.len() - 1));
}

/// Rebasing is injective on the paths that can occur in a well-formed graph
/// during a checked move: two distinct source paths land on distinct targets.
#[verifier::spinoff_prover]
proof fn lemma_move_sources_distinct(
    g: FolderGraph,
    s: Seq<Seq<char>>,
    e: Seq<Seq<char>>,
    p1: Seq<Seq<char>>,
    p2: Seq<Seq<char>>,
)
    requires
        g.wf(),
        s.len() > 0,
        g.has_folder(s),
        g.is_location(e),
        !is_prefix_of(s, e),
        !g.child_occupied(e, s.last()),
        g.is_location(p1),
        g.is_location(p2),
        p1 != p2,
    ensures
        moved_path(p1, s, e) != moved_path(p2, s, e),
{
    let k = s.len() as int;
    lemma_no_location_below(g, e.push(s.last()));
    if is_prefix_of(s, p1) && is_prefix_of(s, p2) {
        if moved_path(p1, s, e) == moved_path(p2, s, e) {
            assert((e + p1.skip(k - 1)).len() == (e + p2.skip(k - 1)).len());
            assert(p1.len() == p2.len());
            assert(p1 =~= p2) by {
                assert forall|x: int| 0 <= x < p1.len() implies #[trigger] p1[x] == p2[x] by {
                    if x < k - 1 {
                        assert(p1[x] == s[x] && p2[x] == s[x]);
                    } else {
                        assert((e + p1.skip(k - 1))[e.len() + (x - (k - 1))] == p1.skip(k - 1)[x - (
                        k - 1)]);
                        assert((e + p2.skip(k - 1))[e.len() + (x - (k - 1))] == p2.skip(k - 1)[x - (
                        k - 1)]);
                        assert(p1.skip(k - 1)[x - (k - 1)] == p1[x]);
                        assert(p2.skip(k - 1)[x - (k - 1)] == p2[x]);
                    }
                }
            }
        }
    } else if is_prefix_of(s, p1) {
        if moved_path(p1, s, e) == p2 {
            assert(p1.skip(k - 1)[0] == p1[k - 1]);
            assert(p1[k - 1] == s[k - 1]);
            assert(is_prefix_of(e.push(s.last()), p2)) by {
                assert(forall|x: int|
                    0 <= x < e.len() ==> (e + p1.skip(k - 1))[x] == e[x]);
                assert((e + p1.skip(k - 1))[e.len() as int] == s.last());
                assert(e.push(s.last()).len() == e.len() + 1 <= p2.len());
                assert(forall|x: int|
                    0 <= x < e.len() + 1 ==> e.push(s.last())[x] == p2[x]);
            }
            assert(p2.len() > 0);
            assert(g.has_folder(p2));
        }
    } else if is_prefix_of(s, p2) {
        if moved_path(p2, s, e) == p1 {
            assert(p2.skip(k - 1)[0] == p2[k - 1]);
            assert(p2[k - 1] == s[k - 1]);
            assert(is_prefix_of(e.push(s.last()), p1)) by {
                assert(forall|x: int|
                    0 <= x < e.len() ==> (e + p2.skip(k - 1))[x] == e[x]);
                assert((e + p2.skip(k - 1))[e.len() as int] == s.last());
                assert(e.push(s.last()).len() == e.len() + 1 <= p1.len());
                assert(forall|x: int|
                    0 <= x < e.len() + 1 ==> e.push(s.last())[x] == p1[x]);
            }
            assert(p1.len() > 0);
            assert(g.has_folder(p1));
        }
    }
}

/// A checked folder move keeps the graph well-formed.
#[verifier::rlimit(30)]
proof fn lemma_move_folder_wf(
    pre: FolderGraph,
    post: FolderGraph,
    s: Seq<Seq<char>>,
    e: Seq<Seq<char>>,
)
    requires
        pre.wf(),
        s.len() > 0,
        pre.has_folder(s),
        pre.is_location(e),
        !is_prefix_of(s, e),
        !pre.child_occupied(e, s.last()),
        post.folders_view() == pre.folders_view().map_values(
            |p: Seq<Seq<char>>| moved_path(p, s, e),
        ),
        post.files_view() == pre.files_view().map_values(|f: FileModel| moved_file(f, s, e)),
    ensures
        post.wf(),
{
    let k = s.len() as int;
    let fo = post.folders_view();
    let fi = post.files_view();
    let n = pre.folders_view().len() as int;
    lemma_no_location_below(pre, e.push(s.last()));
    assert(forall|i: int| 0 <= i < n ==> fo[i] == moved_path(#[trigger] pre.folders_view()[i], s, e));
    assert(forall|i: int|
        0 <= i < fi.len() ==> fi[i] == moved_file(#[trigger] pre.files_view()[i], s, e));
    // every pre folder is a location
    assert(forall|i: int| 0 <= i < n ==> pre.is_location(#[trigger] pre.folders_view()[i]));
    // non-empty and distinct
    assert forall|i: int| 0 <= i < fo.len() implies (#[trigger] fo[i]).len() > 0 by {
        let p = pre.folders_view()[i];
        if is_prefix_of(s, p) {
            assert(fo[i].len() == e.len() + p.len() - (k - 1));
        }
    }
    assert forall|i: int, j: int|
        0 <= i < fo.len() && 0 <= j < fo.len() && i != j implies #[trigger] fo[i]
        != #[trigger] fo[j] by {
        let p1 = pre.folders_view()[i];
        let p2 = pre.folders_view()[j];
        lemma_move_sources_distinct(pre, s, e, p1, p2);
    }
    // prefix closure
    assert forall|i: int, kk: int|
        0 <= i < fo.len() && 1 <= kk < fo[i].len() implies post.has_folder(
        #[trigger] fo[i].subrange(0, kk),
    ) by {
        let p = pre.folders_view()[i];
        if !is_prefix_of(s, p) {
            // untouched: its prefixes are untouched folders
            assert(pre.has_folder(p.subrange(0, kk)));
            let w = choose|w: int|
                0 <= w < n && pre.folders_view()[w] == p.subrange(0, kk);
            assert(!is_prefix_of(s, p.subrange(0, kk))) by {
                if is_prefix_of(s, p.subrange(0, kk)) {
                    assert(forall|x: int| 0 <= x < s.len() ==> s[x] == p.subrange(0, kk)[x]);
                    assert(is_prefix_of(s, p));
                }
            }
            assert(fo[w] == moved_path(p.subrange(0, kk), s, e));
            assert(fo[w] == fo[i].subrange(0, kk));
        } else {
            assert(fo[i] == e + p.skip(k - 1));
            if kk <= e.len() {
                // a prefix of the destination folder
                assert(fo[i].subrange(0, kk) =~= e.subrange(0, kk));
                assert(e.len() > 0);
                let w = choose|w: int| 0 <= w < n && pre.folders_view()[w] == e;
                if kk == e.len() {
                    assert(!is_prefix_of(s, e));
                    assert(fo[w] == e);
                    assert(fo[i].subrange(0, kk) =~= e);
                } else {
                    assert(pre.has_folder(e.subrange(0, kk))) by {
                        assert(pre.folders_view()[w].subrange(0, kk) == e.subrange(0, kk));
                    }
                    let v = choose|v: int|
                        0 <= v < n && pre.folders_view()[v] == e.subrange(0, kk);
                    assert(!is_prefix_of(s, e.subrange(0, kk))) by {
                        if is_prefix_of(s, e.subrange(0, kk)) {
                            assert(forall|x: int|
                                0 <= x < s.len() ==> s[x] == e.subrange(0, kk)[x]);
                            assert(is_prefix_of(s, e));
                        }
                    }
                    assert(fo[v] == e.subrange(0, kk));
                }
            } else {
                // the image of a prefix of the source path
                let m = k - 1 + (kk - e.len());
                assert(1 <= m <= p.len());
                assert(m >= k);
                let psub = p.subrange(0, m);
                assert(is_prefix_of(s, psub)) by {
                    assert(forall|x: int| 0 <= x < k ==> psub[x] == p[x]);
                }
                if m == p.len() {
                    assert(psub =~= p);
                    assert(moved_path(psub, s, e).subrange(0, kk) =~= fo[i].subrange(0, kk));
                    assert(moved_path(psub, s, e) =~= fo[i].subrange(0, kk)) by {
                        assert((e + psub.skip(k - 1)).len() == kk);
                    }
                    assert(post.has_folder(fo[i].subrange(0, kk))) by {
                        assert(fo[i] == moved_path(p, s, e));
                        assert(fo[i].subrange(0, kk) =~= fo[i]);
                    }
                } else {
                    assert(pre.has_folder(psub));
                    let w = choose|w: int| 0 <= w < n && pre.folders_view()[w] == psub;
                    assert(fo[w] == moved_path(psub, s, e));
                    assert(moved_path(psub, s, e) =~= fo[i].subrange(0, kk)) by {
                        assert((e + psub.skip(k - 1)).len() == kk);
                        assert forall|x: int| 0 <= x < kk implies (e + psub.skip(k - 1))[x]
                            == fo[i].subrange(0, kk)[x] by {
                            if x < e.len() {
                            } else {
                                assert(psub.skip(k - 1)[x - e.len()] == psub[x - e.len() + k - 1]);
                                assert(p.skip(k - 1)[x - e.len()] == p[x - e.len() + k - 1]);
                            }
                        }
                    }
                }
            }
        }
    }
    // files sit in valid locations
    assert forall|i: int| 0 <= i < fi.len() implies post.is_location((#[trigger] fi[i]).parent) by {
        let f = pre.files_view()[i];
        assert(pre.is_location(f.parent));
        if f.parent.len() == 0 {
            assert(!is_prefix_of(s, f.parent));
            assert(fi[i].parent == f.parent);
        } else {
            let w = choose|w: int| 0 <= w < n && pre.folders_view()[w] == f.parent;
            assert(fo[w] == moved_path(f.parent, s, e));
            assert(fi[i].parent == moved_path(f.parent, s, e));
        }
    }
    // no two files share a folder and a name
    assert forall|i: int, j: int|
        0 <= i < fi.len() && 0 <= j < fi.len() && i != j implies !((#[trigger] fi[i]).parent
        == (#[trigger] fi[j]).parent && fi[i].name == fi[j].name) by {
        let f1 = pre.files_view()[i];
        let f2 = pre.files_view()[j];
        if f1.parent == f2.parent {
        } else {
            lemma_move_sources_distinct(pre, s, e, f1.parent, f2.parent);
        }
    }
    // no folder path collides with a file location
    assert forall|i: int, j: int|
        0 <= i < fo.len() && 0 <= j < fi.len() implies #[trigger] fo[i] != (
    #[trigger] fi[j]).parent.push(fi[j].name) by {
        let p = pre.folders_view()[i];
        let f = pre.files_view()[j];
        let c = f.parent.push(f.name);
        assert(fo[i] == moved_path(p, s, e));
        assert(fi[j].parent.push(fi[j].name) == moved_path(f.parent, s, e).push(f.name));
        assert(s != c);
        assert(c.drop_last() =~= f.parent);
        assert(c.last() == f.name);
        assert(pre.has_file_at(c.drop_last(), c.last()));
        if is_prefix_of(s, f.parent) {
            lemma_moved_path_push(f.parent, f.name, s, e);
            // both are images of distinct source paths
            assert(moved_path(f.parent, s, e).push(f.name) == moved_path(c, s, e));
            lemma_move_aux_distinct(pre, s, e, p, c);
        } else {
            assert(!is_prefix_of(s, c)) by {
                if is_prefix_of(s, c) {
                    if s.len() <= f.parent.len() {
                        assert(forall|x: int| 0 <= x < s.len() ==> s[x] == f.parent[x]);
                        assert(is_prefix_of(s, f.parent));
                    } else {
                        assert(s.len() == c.len());
                        assert(s =~= c);
                    }
                }
            }
            assert(moved_path(c, s, e) == c);
            assert(moved_path(f.parent, s, e).push(f.name) == c);
            lemma_move_aux_distinct(pre, s, e, p, c);
        }
    }
}

/// Rebasing also separates a folder path from a file's full path: the two
/// can never land on the same spot.
proof fn lemma_move_aux_distinct(
    g: FolderGraph,
    s: Seq<Seq<char>>,
    e: Seq<Seq<char>>,
    p: Seq<Seq<char>>,
    c: Seq<Seq<char>>,
)
    requires
        g.wf(),
        s.len() > 0,
        g.has_folder(s),
        g.is_location(e),
        !is_prefix_of(s, e),
        !g.child_occupied(e, s.last()),
        g.is_location(p),
        // c is the full path of some file leaf
        c.len() > 0,
        g.has_file_at(c.drop_last(), c.last()),
        p != c,
    ensures
        moved_path(p, s, e) != moved_path(c, s, e),
{
    let k = s.len() as int;
    lemma_no_location_below(g, e.push(s.last()));
    if is_prefix_of(s, p) && is_prefix_of(s, c) {
        if moved_path(p, s, e) == moved_path(c, s, e) {
            assert((e + p.skip(k - 1)).len() == (e + c.skip(k - 1)).len());
            assert(p.len() == c.len());
            assert(p =~= c) by {
                assert forall|x: int| 0 <= x < p.len() implies #[trigger] p[x] == c[x] by {
                    if x < k - 1 {
                        assert(p[x] == s[x] && c[x] == s[x]);
                    } else {
                        assert((e + p.skip(k - 1))[e.len() + (x - (k - 1))] == p.skip(k - 1)[x - (k
                        - 1)]);
                        assert((e + c.skip(k - 1))[e.len() + (x - (k - 1))] == c.skip(k - 1)[x - (k
                        - 1)]);
                        assert(p.skip(k - 1)[x - (k - 1)] == p[x]);
                        assert(c.skip(k - 1)[x - (k - 1)] == c[x]);
                    }
                }
            }
        }
    } else if is_prefix_of(s, p) && !is_prefix_of(s, c) {
        // p's image starts with e.push(s.last()); c stays put
        if moved_path(p, s, e) == c {
            assert(p.skip(k - 1)[0] == p[k - 1]);
            assert(p[k - 1] == s[k - 1]);
            assert(is_prefix_of(e.push(s.last()), c)) by {
                assert(forall|x: int| 0 <= x < e.len() ==> (e + p.skip(k - 1))[x] == e[x]);
                assert((e + p.skip(k - 1))[e.len() as int] == s.last());
                assert(forall|x: int| 0 <= x < e.len() + 1 ==> e.push(s.last())[x] == c[x]);
            }
            if c.len() == e.len() + 1 {
                assert(c =~= e.push(s.last()));
                assert(c.drop_last() =~= e);
                assert(c.last() == s.last());
                assert(g.has_file_at(e, s.last()));
            } else {
                // c's parent folder lies strictly below e.push(s.last())
                let parent = c.drop_last();
                assert(parent.len() >= e.len() + 1);
                assert(g.is_location(parent));
                assert(parent.len() > 0);
                assert(is_prefix_of(e.push(s.last()), parent)) by {
                    assert(forall|x: int|
                        0 <= x < e.len() + 1 ==> e.push(s.last())[x] == parent[x]);
                }
                assert(g.has_folder(parent));
            }
        }
    } else if !is_prefix_of(s, p) && is_prefix_of(s, c) {
        if moved_path(c, s, e) == p {
            assert(c.skip(k - 1)[0] == c[k - 1]);
            assert(c[k - 1] == s[k - 1]);
            assert(is_prefix_of(e.push(s.last()), p)) by {
                assert(forall|x: int| 0 <= x < e.len() ==> (e + c.skip(k - 1))[x] == e[x]);
                assert((e + c.skip(k - 1))[e.len() as int] == s.last());
                assert(forall|x: int| 0 <= x < e.len() + 1 ==> e.push(s.last())[x] == p[x]);
            }
            assert(p.len() > 0);
            assert(g.has_folder(p));
        }
    }
}

/// Repointing one file leaf to a free destination keeps the graph
/// well-formed.
proof fn lemma_move_file_wf(
    pre: FolderGraph,
    post: FolderGraph,
    idx: int,
    e: Seq<Seq<char>>,
    name: Seq<char>,
)
    requires
        pre.wf(),
        pre.is_location(e),
        !pre.child_occupied(e, name),
        0 <= idx < pre.files_view().len(),
        pre.files_view()[idx].name == name,
        post.folders_view() == pre.folders_view(),
        post.files_view() == pre.files_view().update(
            idx,
            (FileModel {
                name: pre.files_view()[idx].name,
                resource: pre.files_view()[idx].resource,
                order: pre.files_view()[idx].order,
                parent: e,
            }),
        ),
    ensures
        post.wf(),
{
    let fi = post.files_view();
    assert forall|i: int| 0 <= i < fi.len() implies post.is_location((#[trigger] fi[i]).parent) by {
        if i != idx {
            assert(fi[i] == pre.files_view()[i]);
            assert(pre.is_location(pre.files_view()[i].parent));
        }
    }
    assert forall|i: int, j: int|
        0 <= i < fi.len() && 0 <= j < fi.len() && i != j implies !((#[trigger] fi[i]).parent
        == (#[trigger] fi[j]).parent && fi[i].name == fi[j].name) by {
        if i == idx {
            if fi[j].parent == e && fi[j].name == name {
                assert(pre.has_file_at(e, name));
            }
        } else if j == idx {
            if fi[i].parent == e && fi[i].name == name {
                assert(pre.has_file_at(e, name));
            }
        }
    }
    assert forall|i: int, j: int|
        0 <= i < post.folders_view().len() && 0 <= j < fi.len() implies
        #[trigger] post.folders_view()[i] != (#[trigger] fi[j]).parent.push(fi[j].name) by {
        if j == idx {
            if post.folders_view()[i] == e.push(name) {
                assert(pre.has_folder(e.push(name)));
            }
        }
    }
}

/// Removing every folder and file at or below `p` keeps the graph
/// well-formed.
proof fn lemma_delete_wf(pre: FolderGraph, post: FolderGraph, p: Seq<Seq<char>>)
    requires
        pre.wf(),
        post.folders_view() == pre.folders_view().filter(
            |q: Seq<Seq<char>>| !is_prefix_of(p, q),
        ),
        post.files_view() == pre.files_view().filter(
            |f: FileModel| !is_prefix_of(p, f.parent),
        ),
    ensures
        post.wf(),
{
    let fo = post.folders_view();
    let fi = post.files_view();
    lemma_filter_origin(pre.folders_view(), |q: Seq<Seq<char>>| !is_prefix_of(p, q));
    lemma_filter_origin(pre.files_view(), |f: FileModel| !is_prefix_of(p, f.parent));
    assert forall|i: int| 0 <= i < fo.len() implies (#[trigger] fo[i]).len() > 0 by {
        assert(pre.folders_view().contains(fo[i]));
        let w = choose|w: int|
            0 <= w < pre.folders_view().len() && pre.folders_view()[w] == fo[i];
    }
    lemma_filter_pairwise(
        pre.folders_view(),
        |q: Seq<Seq<char>>| !is_prefix_of(p, q),
        |a: Seq<Seq<char>>, b: Seq<Seq<char>>| a == b,
    );
    broadcast use Seq::lemma_filter_pred;
    // prefix closure: ancestors of kept folders are kept
    assert forall|i: int, k: int|
        0 <= i < fo.len() && 1 <= k < fo[i].len() implies post.has_folder(
        #[trigger] fo[i].subrange(0, k),
    ) by {
        assert(pre.folders_view().contains(fo[i]));
        let w = choose|w: int|
            0 <= w < pre.folders_view().len() && pre.folders_view()[w] == fo[i];
        assert(pre.has_folder(fo[i].subrange(0, k)));
        let v = choose|v: int|
            0 <= v < pre.folders_view().len() && pre.folders_view()[v] == fo[i].subrange(0, k);
        assert(!is_prefix_of(p, fo[i].subrange(0, k))) by {
            if is_prefix_of(p, fo[i].subrange(0, k)) {
                assert(forall|x: int| 0 <= x < p.len() ==> p[x] == fo[i].subrange(0, k)[x]);
                assert(is_prefix_of(p, fo[i]));
                assert(!is_prefix_of(p, fo[i]));
            }
        }
        Seq::lemma_filter_contains(
            pre.folders_view(),
            |q: Seq<Seq<char>>| !is_prefix_of(p, q),
            v,
        );
        assert(fo.contains(fo[i].subrange(0, k)));
    }
    // kept files sit in kept locations
    assert forall|i: int| 0 <= i < fi.len() implies post.is_location((#[trigger] fi[i]).parent) by {
        assert(pre.files_view().contains(fi[i]));
        let w = choose|w: int| 0 <= w < pre.files_view().len() && pre.files_view()[w] == fi[i];
        assert(pre.is_location(fi[i].parent));
        if fi[i].parent.len() > 0 {
            let v = choose|v: int|
                0 <= v < pre.folders_view().len() && pre.folders_view()[v] == fi[i].parent;
            Seq::lemma_filter_contains(
                pre.folders_view(),
                |q: Seq<Seq<char>>| !is_prefix_of(p, q),
                v,
            );
            assert(fo.contains(fi[i].parent));
        }
    }
    lemma_filter_pairwise(
        pre.files_view(),
        |f: FileModel| !is_prefix_of(p, f.parent),
        |a: FileModel, b: FileModel| a.parent == b.parent && a.name == b.name,
    );
    assert forall|i: int, j: int|
        0 <= i < fo.len() && 0 <= j < fi.len() implies #[trigger] fo[i] != (
    #[trigger] fi[j]).parent.push(fi[j].name) by {
        assert(pre.folders_view().contains(fo[i]));
        assert(pre.files_view().contains(fi[j]));
        let w = choose|w: int|
            0 <= w < pre.folders_view().len() && pre.folders_view()[w] == fo[i];
        let v = choose|v: int| 0 <= v < pre.files_view().len() && pre.files_view()[v] == fi[j];
    }
}

/// Removing one file leaf keeps the graph well-formed.
proof fn lemma_remove_file_wf(pre: FolderGraph, post: FolderGraph, idx: int)
    requires
        pre.wf(),
        0 <= idx < pre.files_view().len(),
        post.folders_view() == pre.folders_view(),
        post.files_view() == pre.files_view().remove(idx),
    ensures
        post.wf(),
{
    let fi = post.files_view();
    assert(forall|j: int|
        0 <= j < fi.len() ==> #[trigger] fi[j] == pre.files_view()[
            if j < idx {
                j
            } else {
                j + 1
            }
        ]);
    assert forall|i: int| 0 <= i < fi.len() implies post.is_location((#[trigger] fi[i]).parent) by {
        let w: int = if i < idx {
            i
        } else {
            i + 1
        };
        assert(pre.is_location(pre.files_view()[w].parent));
    }
}

/// The number of folder paths in `fo` that sit directly inside `parent`.
pub open spec fn count_matching_folders(fo: Seq<Seq<Seq<char>>>, parent: Seq<Seq<char>>) -> int
    decreases fo.len(),
{
    if fo.len() == 0 {
        0
    } else {
        count_matching_folders(fo.drop_last(), parent) + if fo.last().len() > 0 && parent_of(
            fo.last(),
        ) == parent {
            1int
        } else {
            0int
        }
    }
}

/// The number of file leaves in `fi` that sit directly inside `parent`.
pub open spec fn count_matching_files(fi: Seq<FileModel>, parent: Seq<Seq<char>>) -> int
    decreases fi.len(),
{
    if fi.len() == 0 {
        0
    } else {
        count_matching_files(fi.drop_last(), parent) + if fi.last().parent == parent {
            1int
        } else {
            0int
        }
    }
}

/// Pushing a folder entry whose parent exists and whose path is fresh keeps
/// the graph well-formed.
proof fn lemma_insert_folder_wf(
    pre: FolderGraph,
    post: FolderGraph,
    parent: Seq<Seq<char>>,
    name: Seq<char>,
)
    requires
        pre.wf(),
        pre.is_location(parent),
        !pre.child_occupied(parent, name),
        post.folders_view() == pre.folders_view().push(parent.push(name)),
        post.files_view() == pre.files_view(),
    ensures
        post.wf(),
{
    let q = parent.push(name);
    let fo = post.folders_view();
    let n = pre.folders_view().len() as int;
    assert(q.len() == parent.len() + 1);
    // distinctness: q is fresh
    assert forall|i: int, j: int|
        0 <= i < fo.len() && 0 <= j < fo.len() && i != j implies #[trigger] fo[i]
        != #[trigger] fo[j] by {
        if i == n {
            assert(pre.folders_view()[j] == fo[j]);
            assert(!pre.has_folder(q));
        } else if j == n {
            assert(pre.folders_view()[i] == fo[i]);
            assert(!pre.has_folder(q));
        }
    }
    // prefix closure
    assert forall|i: int, k: int| 0 <= i < fo.len() && 1 <= k < fo[i].len() implies post.has_folder(
        #[trigger] fo[i].subrange(0, k),
    ) by {
        if i < n {
            assert(pre.has_folder(fo[i].subrange(0, k)));
            let w = choose|w: int|
                0 <= w < pre.folders_view().len() && pre.folders_view()[w] == fo[i].subrange(0, k);
            assert(post.folders_view()[w] == fo[i].subrange(0, k));
        } else {
            // a strict prefix of q is parent or a strict prefix of parent
            assert(fo[i] == q);
            if k <= parent.len() {
                assert(q.subrange(0, k) =~= parent.subrange(0, k));
                if k == parent.len() {
                    assert(q.subrange(0, k) =~= parent);
                    assert(parent.len() > 0);
                    assert(pre.has_folder(parent));
                    let w = choose|w: int|
                        0 <= w < pre.folders_view().len() && pre.folders_view()[w] == parent;
                    assert(post.folders_view()[w] == parent);
                } else {
                    assert(parent.len() > k >= 1);
                    assert(pre.has_folder(parent));
                    let w = choose|w: int|
                        0 <= w < pre.folders_view().len() && pre.folders_view()[w] == parent;
                    assert(pre.folders_view()[w].subrange(0, k) == parent.subrange(0, k));
                    assert(pre.has_folder(parent.subrange(0, k)));
                    let v = choose|v: int|
                        0 <= v < pre.folders_view().len() && pre.folders_view()[v]
                            == parent.subrange(0, k);
                    assert(post.folders_view()[v] == parent.subrange(0, k));
                }
            }
        }
    }
    // files: parents still valid (folder set grew), names untouched
    assert forall|i: int| 0 <= i < post.files_view().len() implies post.is_location(
        (#[trigger] post.files_view()[i]).parent,
    ) by {
        assert(pre.is_location(pre.files_view()[i].parent));
        if pre.files_view()[i].parent.len() > 0 {
            let w = choose|w: int|
                0 <= w < pre.folders_view().len() && pre.folders_view()[w]
                    == pre.files_view()[i].parent;
            assert(post.folders_view()[w] == pre.files_view()[i].parent);
        }
    }
    // no folder path equals a file's location
    assert forall|i: int, j: int|
        0 <= i < fo.len() && 0 <= j < post.files_view().len() implies #[trigger] fo[i]
        != (#[trigger] post.files_view()[j]).parent.push(post.files_view()[j].name) by {
        if i == n {
            let fj = pre.files_view()[j];
            if q == fj.parent.push(fj.name) {
                assert(q.drop_last() =~= parent);
                assert(fj.parent.push(fj.name).drop_last() =~= fj.parent);
                assert(fj.parent == parent);
                assert(fj.name == q.last());
                assert(pre.has_file_at(parent, name));
            }
        } else {
            assert(pre.folders_view()[i] == fo[i]);
        }
    }
}

/// Pushing a file leaf whose parent exists and whose name is fresh among its
/// siblings keeps the graph well-formed.
proof fn lemma_insert_file_wf(
    pre: FolderGraph,
    post: FolderGraph,
    parent: Seq<Seq<char>>,
    name: Seq<char>,
)
    requires
        pre.wf(),
        pre.is_location(parent),
        !pre.child_occupied(parent, name),
        post.folders_view() == pre.folders_view(),
        post.files_view().len() == pre.files_view().len() + 1,
        post.files_view().drop_last() == pre.files_view(),
        post.files_view().last().parent == parent,
        post.files_view().last().name == name,
    ensures
        post.wf(),
{
    let fi = post.files_view();
    let m = pre.files_view().len() as int;
    assert(forall|j: int| 0 <= j < m ==> #[trigger] fi[j] == pre.files_view()[j]);
    assert forall|i: int| 0 <= i < fi.len() implies post.is_location(
        (#[trigger] fi[i]).parent,
    ) by {
        if i < m {
            assert(pre.is_location(pre.files_view()[i].parent));
        } else {
            assert(fi[i].parent == parent);
        }
    }
    assert forall|i: int, j: int|
        0 <= i < fi.len() && 0 <= j < fi.len() && i != j implies !((#[trigger] fi[i]).parent
        == (#[trigger] fi[j]).parent && fi[i].name == fi[j].name) by {
        if i == m && j < m {
            if fi[j].parent == parent && fi[j].name == name {
                assert(pre.has_file_at(parent, name));
            }
        } else if j == m && i < m {
            if fi[i].parent == parent && fi[i].name == name {
                assert(pre.has_file_at(parent, name));
            }
        }
    }
    assert forall|i: int, j: int|
        0 <= i < post.folders_view().len() && 0 <= j < fi.len() implies #[trigger] post.folders_view()[i]
        != (#[trigger] fi[j]).parent.push(fi[j].name) by {
        if j == m {
            if post.folders_view()[i] == parent.push(name) {
                assert(pre.has_folder(parent.push(name)));
            }
        }
    }
}

} // verus!
