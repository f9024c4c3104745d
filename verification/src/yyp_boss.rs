//! The synchronization engine: the folder graph, the name index, and the
//! per-kind resource handlers, kept consistent under every operation.
//!
//! The engine is the only component that mutates more than one structure per
//! call; every public operation validates before it mutates, so a failed
//! command leaves the project untouched (the folder-deletion cascade being
//! the one, documented, best-effort exception).

use crate::errors::{DeleteFolderError, ResourceManipulationError};
use crate::folder_graph::{
    files_model, first_file_named, lemma_first_file_named, FileLeaf, FileModel, FolderGraph,
    PathKind,
};
use crate::folder_graph_error::FolderGraphError;
use crate::paths::{clone_path, FolderPath};
use crate::resource_names::{
    DescriptorModel, ResourceDescriptor, ResourceNames, lemma_first_entry_named,
};
use crate::resources::{Resource, RESOURCE_KIND_COUNT};
use crate::seq_facts::lemma_filter_origin;
use crate::yy_resource::{AssociatedData, YyFile};
use crate::yy_resource_handler::{FsAction, FsActionModel, plan_model, YyResourceHandler};
use vstd::prelude::*;

verus! {

/// The lifecycle of an engine instance: bulk ingestion first, then normal
/// operation. The transition happens exactly once.
#[derive(Debug, PartialEq, Eq, Structural, Copy, Clone)]
pub enum BossState {
    /// Bulk startup ingestion: load calls are accepted, commands are not,
    /// and no write-back is queued.
    Loading,
    /// Normal operation: full validate-before-mutate checking.
    Ready,
}

/// The synchronization engine.
pub struct YypBoss {
    folder_graph: FolderGraph,
    resource_names: ResourceNames,
    handlers: Vec<YyResourceHandler>,
    state: BossState,
}

/// One resource line of the persisted project descriptor.
pub struct ProjectEntry {
    /// The resource's name.
    pub name: String,
    /// The resource's kind.
    pub resource: Resource,
    /// The sibling order index of the resource's file leaf.
    pub order: usize,
    /// The folder the resource sits in.
    pub parent: FolderPath,
}

/// The mathematical value of a [`ProjectEntry`].
pub ghost struct ProjectEntryModel {
    pub name: Seq<char>,
    pub resource: Resource,
    pub order: int,
    pub parent: Seq<Seq<char>>,
}

impl ProjectEntry {
    /// The mathematical value of this entry.
    pub open spec fn model(self) -> ProjectEntryModel {
        ProjectEntryModel {
            name: self.name@,
            resource: self.resource,
            order: self.order as int,
            parent: self.parent.deep_view(),
        }
    }
}

/// The mathematical value of a descriptor's resource list.
pub open spec fn entries_model(s: Seq<ProjectEntry>) -> Seq<ProjectEntryModel> {
    s.map_values(|e: ProjectEntry| e.model())
}

/// The entry a file leaf serializes to.
pub open spec fn entry_of_leaf(f: FileModel) -> ProjectEntryModel {
    ProjectEntryModel { name: f.name, resource: f.resource, order: f.order, parent: f.parent }
}

/// The persisted shape of a project: the folder tree and the ordered list of
/// resources. Read on load, written on flush; everything else on disk is a
/// per-resource file.
pub struct ProjectDescriptor {
    /// Every folder's full path, in creation order.
    pub folders: Vec<FolderPath>,
    /// One line per resource, in serialization order.
    pub resources: Vec<ProjectEntry>,
}

impl YypBoss {
    /// The folder graph of the project.
    pub closed spec fn graph(&self) -> FolderGraph {
        self.folder_graph
    }

    /// The name index of the project.
    pub closed spec fn names(&self) -> ResourceNames {
        self.resource_names
    }

    /// The per-kind resource handlers.
    pub closed spec fn handlers_seq(&self) -> Seq<YyResourceHandler> {
        self.handlers@
    }

    /// The handler of one resource kind.
    pub open spec fn handler(&self, kind: Resource) -> YyResourceHandler {
        self.handlers_seq()[kind.spec_index_of()]
    }

    /// Whether the engine is still in bulk ingestion.
    pub closed spec fn loading(&self) -> bool {
        self.state is Loading
    }

    /// Whether the engine accepts commands.
    pub closed spec fn ready(&self) -> bool {
        self.state is Ready
    }

    /// Whether the name index records `name` with kind `resource`.
    pub open spec fn names_maps(&self, name: Seq<char>, resource: Resource) -> bool {
        exists|i: int|
            0 <= i < self.names().entries_view().len() && (
            #[trigger] self.names().entries_view()[i]).0 == name
                && self.names().entries_view()[i].1.resource == resource
    }

    /// Whether some file leaf is named `name`.
    pub open spec fn has_file_named(&self, name: Seq<char>) -> bool {
        exists|j: int|
            0 <= j < self.graph().files_view().len() && (
            #[trigger] self.graph().files_view()[j]).name == name
    }

    /// The handlers are complete and each stores only its own kind.
    pub open spec fn handlers_wf(&self) -> bool {
        &&& self.handlers_seq().len() == RESOURCE_KIND_COUNT
        &&& forall|i: int|
            0 <= i < RESOURCE_KIND_COUNT ==> (#[trigger] self.handlers_seq()[i]).wf()
        &&& forall|i: int|
            0 <= i < RESOURCE_KIND_COUNT ==> (#[trigger] self.handlers_seq()[i]).kind_view()
                == Resource::spec_of_index(i)
        &&& forall|i: int, k: int|
            0 <= i < RESOURCE_KIND_COUNT && 0 <= k < self.handlers_seq()[i].resources_view().len()
                ==> self.names_maps(
                (#[trigger] self.handlers_seq()[i].resources_view()[k]).0,
                Resource::spec_of_index(i),
            )
    }

    /// The cross-structure invariant of the whole engine.
    ///
    /// Every file leaf has exactly one name-index entry of its own kind and
    /// vice versa (so the leaf count equals the index size), resource names
    /// are globally unique, and a handler stores a resource only under a
    /// name the index knows with the handler's kind.
    pub open spec fn wf(&self) -> bool {
        &&& self.graph().wf()
        &&& self.names().wf()
        &&& self.names().entries_view().len() == self.graph().files_view().len()
        &&& forall|j: int|
            0 <= j < self.graph().files_view().len() ==> self.names_maps(
                (#[trigger] self.graph().files_view()[j]).name,
                self.graph().files_view()[j].resource,
            )
        &&& forall|k: int|
            0 <= k < self.names().entries_view().len() ==> self.has_file_named(
                (#[trigger] self.names().entries_view()[k]).0,
            )
        &&& forall|j1: int, j2: int|
            0 <= j1 < self.graph().files_view().len() && 0 <= j2
                < self.graph().files_view().len() && j1 != j2 ==> (
            #[trigger] self.graph().files_view()[j1]).name != (
            #[trigger] self.graph().files_view()[j2]).name
        &&& self.handlers_wf()
    }

    /// A fresh engine: an empty project in the bulk-ingestion state.
    pub fn new() -> (r: YypBoss)
        ensures
            r.wf(),
            r.loading(),
            r.graph().folders_view().len() == 0,
            r.graph().files_view().len() == 0,
            r.names().entries_view().len() == 0,
            forall|kind: Resource| (#[trigger] r.handler(kind)).queues_empty(),
            forall|kind: Resource| (#[trigger] r.handler(kind)).resources_view().len() == 0,
    {
        let mut handlers: Vec<YyResourceHandler> = Vec::new();
        let mut i: usize = 0;
        while i < RESOURCE_KIND_COUNT
            invariant
                i <= RESOURCE_KIND_COUNT,
                handlers@.len() == i,
                forall|j: int|
                    0 <= j < i ==> (#[trigger] handlers@[j]).wf() && handlers@[j].kind_view()
                        == Resource::spec_of_index(j) && handlers@[j].queues_empty()
                        && handlers@[j].resources_view().len() == 0,
            decreases RESOURCE_KIND_COUNT - i,
        {
            let h = YyResourceHandler::new(Resource::of_index(i));
            handlers.push(h);
            i += 1;
        }
        let r = YypBoss {
            folder_graph: FolderGraph::new(),
            resource_names: ResourceNames::new(),
            handlers,
            state: BossState::Loading,
        };
        proof {
            assert forall|kind: Resource| (#[trigger] r.handler(kind)).queues_empty()
                && r.handler(kind).resources_view().len() == 0 by {
                assert(0 <= kind.spec_index_of() < RESOURCE_KIND_COUNT);
            }
        }
        r
    }

    /// Whether the engine accepts commands, executably.
    pub fn is_ready(&self) -> (r: bool)
        ensures
            r == self.ready(),
    {
        match self.state {
            BossState::Ready => true,
            BossState::Loading => false,
        }
    }

    /// Ends bulk ingestion: from here on the engine accepts commands. Called
    /// exactly once, after the initial load completes.
    pub fn finish_loading(&mut self)
        requires
            old(self).loading(),
        ensures
            final(self).ready(),
            final(self).graph() == old(self).graph(),
            final(self).names() == old(self).names(),
            final(self).handlers_seq() == old(self).handlers_seq(),
            old(self).wf() ==> final(self).wf(),
    {
        self.state = BossState::Ready;
    }

    /// Whether a resource named `name` exists, of any kind.
    pub fn resource_exists(&self, name: &String) -> (r: bool)
        ensures
            r == self.names().has_name(name@),
    {
        self.resource_names.contains(name)
    }

    /// The number of resources in the project.
    pub fn resource_count(&self) -> (r: usize)
        ensures
            r == self.names().entries_view().len(),
    {
        self.resource_names.len()
    }

    /// The number of file leaves in the virtual file system.
    pub fn file_leaf_count(&self) -> (r: usize)
        ensures
            r == self.graph().files_view().len(),
    {
        self.folder_graph.file_count()
    }

    /// A copy of the name-index record for `name`, if any.
    pub fn lookup_resource(&self, name: &String) -> (r: Option<ResourceDescriptor>)
        ensures
            match r {
                Some(d) => self.names().has_name(name@) && d.model() == self.names().spec_get(
                    name@,
                ),
                None => !self.names().has_name(name@),
            },
    {
        self.resource_names.get(name)
    }

    /// A copy of the stored definition and payload of the resource named
    /// `name` of kind `kind`, if the store holds it.
    pub fn get_resource(&self, kind: Resource, name: &String) -> (r: Option<
        (YyFile, Option<AssociatedData>),
    >)
        requires
            self.wf(),
        ensures
            match r {
                Some(out) => {
                    &&& self.handler(kind).has_resource(name@)
                    &&& out.0.model() == self.handler(kind).spec_resource(name@).yy
                    &&& crate::yy_resource_handler::opt_assoc_model(out.1) == self.handler(
                        kind,
                    ).spec_resource(name@).assoc
                },
                None => !self.handler(kind).has_resource(name@),
            },
    {
        let idx = kind.index_of();
        match self.handlers[idx].get(name) {
            Some(d) => {
                let copy = d.clone_resource();
                Some((copy.yy_resource, copy.associated_data))
            },
            None => None,
        }
    }

    /// Installs freshly loaded associated data for a resource; the caller
    /// performs the disk read. Fails with `NotFound` when no such resource
    /// is stored.
    pub fn load_resource_associated_data(
        &mut self,
        kind: Resource,
        name: &String,
        data: AssociatedData,
    ) -> (r: Result<(), ResourceManipulationError>)
        requires
            old(self).wf(),
        ensures
            final(self).wf(),
            final(self).graph() == old(self).graph(),
            final(self).names() == old(self).names(),
            final(self).ready() == old(self).ready(),
            forall|other: Resource|
                other != kind ==> #[trigger] final(self).handler(other) == old(self).handler(
                    other,
                ),
            match r {
                Ok(()) => {
                    &&& old(self).handler(kind).has_resource(name@)
                    &&& final(self).handler(kind).resources_view() == old(self).handler(
                        kind,
                    ).resources_view().update(
                        crate::seq_facts::first_keyed(
                            old(self).handler(kind).resources_view(),
                            name@,
                        ).unwrap(),
                        (
                            name@,
                            (crate::yy_resource_handler::YyResourceDataModel {
                                yy: old(self).handler(kind).spec_resource(name@).yy,
                                assoc: Some(data.model()),
                            }),
                        ),
                    )
                    &&& final(self).handler(kind).reserialize_view() == old(self).handler(
                        kind,
                    ).reserialize_view()
                    &&& final(self).handler(kind).queues_empty() == old(self).handler(
                        kind,
                    ).queues_empty()
                },
                Err(e) => {
                    &&& e == ResourceManipulationError::NotFound
                    &&& !old(self).handler(kind).has_resource(name@)
                    &&& final(self).handler(kind) == old(self).handler(kind)
                },
            },
    {
        let idx = kind.index_of();
        let ghost pre = *self;
        let mut h = self.handlers.remove(idx);
        match h.load_resource_associated_data(name, data) {
            Ok(()) => {
                self.handlers.insert(idx, h);
                proof {
                    assert(self.handlers_seq() =~= pre.handlers_seq().update(
                        idx as int,
                        self.handlers_seq()[idx as int],
                    ));
                    let hpre = pre.handler(kind);
                    crate::seq_facts::lemma_first_keyed(hpre.resources_view(), name@);
                    let w = crate::seq_facts::first_keyed(hpre.resources_view(), name@).unwrap();
                    assert(0 <= w < hpre.resources_view().len());
                    assert(hpre.resources_view()[w].0 == name@);
                    assert forall|k: int|
                        0 <= k < self.handler(kind).resources_view().len() implies self.names_maps(
                        (#[trigger] self.handler(kind).resources_view()[k]).0,
                        kind,
                    ) by {
                        assert(Resource::spec_of_index(kind.spec_index_of()) == kind);
                        if k == w {
                            assert(self.handler(kind).resources_view()[k].0 == name@);
                            assert(pre.names_maps(hpre.resources_view()[w].0, kind));
                        } else {
                            assert(self.handler(kind).resources_view()[k]
                                == hpre.resources_view()[k]);
                            assert(pre.names_maps(hpre.resources_view()[k].0, kind));
                        }
                    }
                    lemma_handler_update_wf(pre, *self, kind);
                }
                Ok(())
            },
            Err(()) => {
                self.handlers.insert(idx, h);
                proof {
                    assert(self.handlers_seq() =~= pre.handlers_seq());
                }
                Err(ResourceManipulationError::NotFound)
            },
        }
    }
}

/// The file leaf a descriptor entry loads into.
pub open spec fn leaf_of_entry(e: ProjectEntryModel) -> FileModel {
    FileModel { name: e.name, resource: e.resource, order: e.order, parent: e.parent }
}

/// The flush plan of the first `n` handlers, concatenated in kind order.
pub open spec fn handlers_plan(hs: Seq<YyResourceHandler>, n: int) -> Seq<FsActionModel>
    decreases n,
{
    if n <= 0 {
        Seq::empty()
    } else {
        handlers_plan(hs, n - 1) + hs[n - 1].spec_plan()
    }
}

impl YypBoss {
    /// What a successful `add_resource` does, and when each error comes.
    pub open spec fn add_rel(
        pre: YypBoss,
        post: YypBoss,
        kind: Resource,
        yy: YyFile,
        data: AssociatedData,
        r: Result<(), ResourceManipulationError>,
    ) -> bool {
        match r {
            Ok(()) => {
                &&& !pre.names().has_name(yy.name@)
                &&& pre.graph().is_location(yy.parent.deep_view())
                &&& !pre.graph().child_occupied(yy.parent.deep_view(), yy.name@)
                &&& post.graph().folders_view() == pre.graph().folders_view()
                &&& post.graph().files_view() == pre.graph().files_view().push(
                    FileModel {
                        name: yy.name@,
                        resource: kind,
                        order: pre.graph().spec_child_count(yy.parent.deep_view()),
                        parent: yy.parent.deep_view(),
                    },
                )
                &&& post.names().entries_view() == pre.names().entries_view().push(
                    (
                        yy.name@,
                        (DescriptorModel {
                            resource: kind,
                            order: pre.graph().spec_child_count(yy.parent.deep_view()),
                            parent: yy.parent.deep_view(),
                        }),
                    ),
                )
                &&& post.handler(kind).resources_view() == pre.handler(
                    kind,
                ).resources_view().push(
                    (
                        yy.name@,
                        (crate::yy_resource_handler::YyResourceDataModel {
                            yy: yy.model(),
                            assoc: Some(data.model()),
                        }),
                    ),
                )
                &&& post.handler(kind).reserialize_view()
                    == crate::yy_resource_handler::push_absent(
                    pre.handler(kind).reserialize_view(),
                    yy.name@,
                )
                &&& post.handler(kind).remove_queue_view() == pre.handler(
                    kind,
                ).remove_queue_view()
                &&& post.handler(kind).cleanup_files_view() == pre.handler(
                    kind,
                ).cleanup_files_view()
                &&& post.handler(kind).cleanup_folders_view() == pre.handler(
                    kind,
                ).cleanup_folders_view()
                &&& forall|other: Resource|
                    other != kind ==> #[trigger] post.handler(other) == pre.handler(other)
            },
            Err(e) => {
                &&& post == pre
                &&& match e {
                    ResourceManipulationError::NameCollision => pre.names().has_name(yy.name@),
                    ResourceManipulationError::FolderGraphError(fe) => {
                        &&& !pre.names().has_name(yy.name@)
                        &&& match fe {
                            FolderGraphError::PathNotFound => !pre.graph().is_location(
                                yy.parent.deep_view(),
                            ),
                            FolderGraphError::FolderAlreadyPresent => pre.graph().has_folder(
                                yy.parent.deep_view().push(yy.name@),
                            ),
                            FolderGraphError::FileAlreadyPresent => pre.graph().has_file_at(
                                yy.parent.deep_view(),
                                yy.name@,
                            ),
                            _ => false,
                        }
                    },
                    _ => false,
                }
            },
        }
    }

    /// Adds a new resource: checks name uniqueness before mutating anything,
    /// then updates the folder graph, the name index, and the handler's
    /// rewrite queue together. All-or-nothing: on any error the project is
    /// untouched.
    pub fn add_resource(&mut self, kind: Resource, yy: YyFile, data: AssociatedData) -> (r: Result<
        (),
        ResourceManipulationError,
    >)
        requires
            old(self).ready(),
            old(self).wf(),
            old(self).graph().folders_view().len() + old(self).graph().files_view().len()
                <= usize::MAX,
        ensures
            final(self).wf(),
            final(self).ready(),
            Self::add_rel(*old(self), *final(self), kind, yy, data, r),
    {
        let ghost pre = *self;
        if self.resource_names.contains(&yy.name) {
            return Err(ResourceManipulationError::NameCollision);
        }
        let order = self.folder_graph.child_count(&yy.parent);
        let name = yy.name.clone();
        let parent = clone_path(&yy.parent);
        match self.folder_graph.insert_file(&parent, &name, kind, order) {
            Err(e) => {
                return Err(ResourceManipulationError::FolderGraphError(e));
            },
            Ok(()) => {},
        }
        let descriptor = ResourceDescriptor::new(kind, order, parent);
        match self.resource_names.insert(name, descriptor) {
            Err(()) => {
                proof {
                    assert(false);
                }
                return Err(ResourceManipulationError::InternalError);
            },
            Ok(()) => {},
        }
        let idx = kind.index_of();
        let ghost mid = *self;
        let mut h = self.handlers.remove(idx);
        let ghost hpre = pre.handler(kind);
        proof {
            assert(hpre == h);
            assert(!hpre.has_resource(yy.name@)) by {
                if hpre.has_resource(yy.name@) {
                    let k = choose|k: int|
                        0 <= k < hpre.resources_view().len() && hpre.resources_view()[k].0
                            == yy.name@;
                    assert(pre.names_maps(hpre.resources_view()[k].0, kind));
                }
            }
        }
        let prior = h.set(yy, data);
        self.handlers.insert(idx, h);
        proof {
            assert(prior is None);
            assert(self.handlers_seq() =~= mid.handlers_seq().update(
                idx as int,
                self.handlers_seq()[idx as int],
            ));
            assert(self.graph().files_view().drop_last() =~= pre.graph().files_view());
            assert(self.names().entries_view().drop_last() =~= pre.names().entries_view());
            lemma_boss_add_file_wf(pre, *self, kind);
        }
        Ok(())
    }

    /// Creates a folder at the end of `parent`'s children and returns its
    /// path.
    pub fn add_folder_to_end(&mut self, parent: &FolderPath, name: String) -> (r: Result<
        FolderPath,
        FolderGraphError,
    >)
        requires
            old(self).ready(),
            old(self).wf(),
        ensures
            final(self).wf(),
            final(self).ready(),
            final(self).names() == old(self).names(),
            final(self).handlers_seq() == old(self).handlers_seq(),
            final(self).graph().files_view() == old(self).graph().files_view(),
            match r {
                Ok(p) => {
                    &&& p.deep_view() == parent.deep_view().push(name@)
                    &&& old(self).graph().is_location(parent.deep_view())
                    &&& !old(self).graph().child_occupied(parent.deep_view(), name@)
                    &&& final(self).graph().folders_view() == old(
                        self,
                    ).graph().folders_view().push(parent.deep_view().push(name@))
                },
                Err(e) => {
                    &&& final(self).graph() == old(self).graph()
                    &&& match e {
                        FolderGraphError::PathNotFound => !old(self).graph().is_location(
                            parent.deep_view(),
                        ),
                        FolderGraphError::FolderAlreadyPresent => old(self).graph().has_folder(
                            parent.deep_view().push(name@),
                        ),
                        FolderGraphError::FileAlreadyPresent => old(self).graph().has_file_at(
                            parent.deep_view(),
                            name@,
                        ),
                        _ => false,
                    }
                },
            },
    {
        let ghost pre = *self;
        match self.folder_graph.insert_folder(parent, &name) {
            Err(e) => Err(e),
            Ok(()) => {
                proof {
                    assert forall|j: int|
                        0 <= j < self.graph().files_view().len() implies self.names_maps(
                        (#[trigger] self.graph().files_view()[j]).name,
                        self.graph().files_view()[j].resource,
                    ) by {
                        assert(pre.names_maps(
                            pre.graph().files_view()[j].name,
                            pre.graph().files_view()[j].resource,
                        ));
                    }
                }
                Ok(crate::paths::child_path(parent, &name))
            },
        }
    }

    /// Loads one folder during bulk ingestion. The folder is created if and
    /// only if its parent exists and the spot is free; a duplicate or an
    /// orphan is skipped.
    pub fn load_folder(&mut self, parent: &FolderPath, name: &String) -> (r: bool)
        requires
            old(self).loading(),
            old(self).wf(),
        ensures
            final(self).wf(),
            final(self).loading(),
            final(self).names() == old(self).names(),
            final(self).handlers_seq() == old(self).handlers_seq(),
            final(self).graph().files_view() == old(self).graph().files_view(),
            r <==> old(self).graph().is_location(parent.deep_view()) && !old(
                self,
            ).graph().child_occupied(parent.deep_view(), name@),
            r ==> final(self).graph().folders_view() == old(self).graph().folders_view().push(
                parent.deep_view().push(name@),
            ),
            !r ==> final(self).graph() == old(self).graph(),
    {
        let ghost pre = *self;
        match self.folder_graph.insert_folder(parent, name) {
            Err(_) => false,
            Ok(()) => {
                proof {
                    assert forall|j: int|
                        0 <= j < self.graph().files_view().len() implies self.names_maps(
                        (#[trigger] self.graph().files_view()[j]).name,
                        self.graph().files_view()[j].resource,
                    ) by {
                        assert(pre.names_maps(
                            pre.graph().files_view()[j].name,
                            pre.graph().files_view()[j].resource,
                        ));
                    }
                }
                true
            },
        }
    }

    /// Loads one resource line during bulk ingestion, at its recorded order.
    /// The line is taken if and only if its name is fresh, its parent folder
    /// exists and the spot is free; anything else is skipped. No write-back
    /// is queued.
    pub fn load_file(&mut self, entry: &ProjectEntry) -> (r: bool)
        requires
            old(self).loading(),
            old(self).wf(),
        ensures
            final(self).wf(),
            final(self).loading(),
            final(self).handlers_seq() == old(self).handlers_seq(),
            r <==> !old(self).names().has_name(entry.name@) && old(self).graph().is_location(
                entry.parent.deep_view(),
            ) && !old(self).graph().child_occupied(entry.parent.deep_view(), entry.name@),
            r ==> {
                &&& final(self).graph().folders_view() == old(self).graph().folders_view()
                &&& final(self).graph().files_view() == old(self).graph().files_view().push(
                    leaf_of_entry(entry.model()),
                )
                &&& final(self).names().entries_view() == old(self).names().entries_view().push(
                    (
                        entry.name@,
                        (DescriptorModel {
                            resource: entry.resource,
                            order: entry.order as int,
                            parent: entry.parent.deep_view(),
                        }),
                    ),
                )
            },
            !r ==> *final(self) == *old(self),
    {
        let ghost pre = *self;
        if self.resource_names.contains(&entry.name) {
            return false;
        }
        match self.folder_graph.insert_file(
            &entry.parent,
            &entry.name,
            entry.resource,
            entry.order,
        ) {
            Err(_) => false,
            Ok(()) => {
                let descriptor = ResourceDescriptor::new(
                    entry.resource,
                    entry.order,
                    clone_path(&entry.parent),
                );
                match self.resource_names.insert(entry.name.clone(), descriptor) {
                    Err(()) => {
                        proof {
                            assert(false);
                        }
                        false
                    },
                    Ok(()) => {
                        proof {
                            assert(self.handlers_seq() =~= pre.handlers_seq());
                            assert(self.graph().files_view().drop_last() =~= pre.graph().files_view());
                            assert(self.names().entries_view().drop_last()
                                =~= pre.names().entries_view());
                            assert(self.handler(entry.resource) == pre.handler(entry.resource));
                            lemma_boss_add_file_wf(pre, *self, entry.resource);
                        }
                        true
                    },
                }
            },
        }
    }

    /// Stores one resource definition during bulk ingestion, without
    /// tracking a payload or marking anything dirty. Returns whether the
    /// definition was taken: it is skipped unless the name index already
    /// maps its name to `kind`.
    pub fn load_file_definition(&mut self, kind: Resource, yy: YyFile) -> (r: bool)
        requires
            old(self).loading(),
            old(self).wf(),
        ensures
            final(self).wf(),
            final(self).loading(),
            final(self).graph() == old(self).graph(),
            final(self).names() == old(self).names(),
            r == old(self).names_maps(yy.name@, kind),
            forall|other: Resource|
                other != kind ==> #[trigger] final(self).handler(other) == old(self).handler(
                    other,
                ),
            r ==> {
                &&& final(self).handler(kind).has_resource(yy.name@)
                &&& (if old(self).handler(kind).has_resource(yy.name@) {
                    final(self).handler(kind).resources_view() == old(self).handler(
                        kind,
                    ).resources_view().update(
                        crate::seq_facts::first_keyed(
                            old(self).handler(kind).resources_view(),
                            yy.name@,
                        ).unwrap(),
                        (
                            yy.name@,
                            (crate::yy_resource_handler::YyResourceDataModel {
                                yy: yy.model(),
                                assoc: None,
                            }),
                        ),
                    )
                } else {
                    final(self).handler(kind).resources_view() == old(self).handler(
                        kind,
                    ).resources_view().push(
                        (
                            yy.name@,
                            (crate::yy_resource_handler::YyResourceDataModel {
                                yy: yy.model(),
                                assoc: None,
                            }),
                        ),
                    )
                })
                &&& final(self).handler(kind).reserialize_view() == old(self).handler(
                    kind,
                ).reserialize_view()
                &&& final(self).handler(kind).remove_queue_view() == old(self).handler(
                    kind,
                ).remove_queue_view()
                &&& final(self).handler(kind).cleanup_files_view() == old(self).handler(
                    kind,
                ).cleanup_files_view()
                &&& final(self).handler(kind).cleanup_folders_view() == old(self).handler(
                    kind,
                ).cleanup_folders_view()
            },
            !r ==> final(self).handler(kind) == old(self).handler(kind),
    {
        let entry = match self.resource_names.get(&yy.name) {
            None => {
                proof {
                    if old(self).names_maps(yy.name@, kind) {
                        let i = choose|i: int|
                            0 <= i < old(self).names().entries_view().len() && (
                            #[trigger] old(self).names().entries_view()[i]).0 == yy.name@;
                        assert(old(self).names().has_name(yy.name@));
                    }
                }
                return false;
            },
            Some(d) => d,
        };
        let matches_kind = match (entry.resource, kind) {
            _ => entry.resource.index_of() == kind.index_of(),
        };
        proof {
            assert(Resource::spec_of_index(entry.resource.spec_index_of()) == entry.resource);
            assert(Resource::spec_of_index(kind.spec_index_of()) == kind);
            lemma_first_entry_named(self.names().entries_view(), yy.name@);
            if matches_kind {
                assert(self.names_maps(yy.name@, kind));
            } else {
                if self.names_maps(yy.name@, kind) {
                    let i = choose|i: int|
                        0 <= i < self.names().entries_view().len() && (
                        #[trigger] self.names().entries_view()[i]).0 == yy.name@
                            && self.names().entries_view()[i].1.resource == kind;
                    let w = crate::resource_names::first_entry_named(
                        self.names().entries_view(),
                        yy.name@,
                    ).unwrap();
                    assert(self.names().entries_view()[i].0 == self.names().entries_view()[w].0);
                    assert(i == w);
                }
            }
        }
        if !matches_kind {
            return false;
        }
        let ghost pre = *self;
        let ghost nm = yy.name@;
        let idx = kind.index_of();
        let mut h = self.handlers.remove(idx);
        h.load_on_startup(yy);
        self.handlers.insert(idx, h);
        proof {
            assert(self.handlers_seq() =~= pre.handlers_seq().update(
                idx as int,
                self.handlers_seq()[idx as int],
            ));
            let hpre = pre.handler(kind);
            if hpre.has_resource(nm) {
                crate::seq_facts::lemma_first_keyed(hpre.resources_view(), nm);
            }
            assert forall|k: int|
                0 <= k < self.handler(kind).resources_view().len() implies self.names_maps(
                (#[trigger] self.handler(kind).resources_view()[k]).0,
                kind,
            ) by {
                assert(Resource::spec_of_index(kind.spec_index_of()) == kind);
                if k < hpre.resources_view().len() && self.handler(kind).resources_view()[k]
                    == hpre.resources_view()[k] {
                    assert(pre.names_maps(hpre.resources_view()[k].0, kind));
                } else {
                    assert(self.handler(kind).resources_view()[k].0 == nm);
                }
            }
            lemma_handler_update_wf(pre, *self, kind);
            assert(self.handler(kind).has_resource(nm)) by {
                if hpre.has_resource(nm) {
                    let w = crate::seq_facts::first_keyed(hpre.resources_view(), nm).unwrap();
                    assert(self.handler(kind).resources_view()[w].0 == nm);
                } else {
                    let n = self.handler(kind).resources_view().len() - 1;
                    assert(self.handler(kind).resources_view()[n].0 == nm);
                }
            }
        }
        true
    }
}

impl YypBoss {
    /// The subtree rooted at `path`, as copies.
    pub fn get_folder(&self, path: &FolderPath) -> (r: Result<
        (Vec<FolderPath>, Vec<FileLeaf>),
        FolderGraphError,
    >)
        ensures
            match r {
                Ok(sub) => {
                    &&& self.graph().is_location(path.deep_view())
                    &&& sub.0.deep_view() == self.graph().folders_view().filter(
                        |q: Seq<Seq<char>>| crate::paths::is_prefix_of(path.deep_view(), q),
                    )
                    &&& files_model(sub.1@) == self.graph().files_view().filter(
                        |f: FileModel| crate::paths::is_prefix_of(path.deep_view(), f.parent),
                    )
                },
                Err(e) => e is PathNotFound && !self.graph().is_location(path.deep_view()),
            },
    {
        self.folder_graph.get_folder(path)
    }

    /// Copies of the whole virtual file system.
    pub fn get_full_vfs(&self) -> (r: (Vec<FolderPath>, Vec<FileLeaf>))
        ensures
            r.0.deep_view() == self.graph().folders_view(),
            files_model(r.1@) == self.graph().files_view(),
    {
        self.folder_graph.get_full_vfs()
    }

    /// Whether `path` names a folder or a file.
    pub fn get_path_type(&self, path: &FolderPath) -> (r: Result<PathKind, FolderGraphError>)
        ensures
            match r {
                Ok(PathKind::Folder) => self.graph().is_location(path.deep_view()),
                Ok(PathKind::File) => path.deep_view().len() > 0 && self.graph().has_file_at(
                    crate::paths::parent_of(path.deep_view()),
                    path.deep_view().last(),
                ),
                Err(e) => {
                    &&& e is PathNotFound
                    &&& !self.graph().is_location(path.deep_view())
                    &&& path.deep_view().len() > 0 ==> !self.graph().has_file_at(
                        crate::paths::parent_of(path.deep_view()),
                        path.deep_view().last(),
                    )
                },
            },
    {
        self.folder_graph.get_path_type(path)
    }

    /// What a `move_item` does, and when each error comes.
    pub open spec fn move_rel(
        pre: YypBoss,
        post: YypBoss,
        start: Seq<Seq<char>>,
        end: Seq<Seq<char>>,
        r: Result<(), FolderGraphError>,
    ) -> bool {
        match r {
            Ok(()) => {
                &&& pre.graph().spec_move_check(start, end) is None
                &&& post.handlers_seq() == pre.handlers_seq()
                &&& if pre.graph().has_folder(start) {
                    // a folder moved: every path below it is rebased, the
                    // name index is untouched
                    &&& post.graph().folders_view() == pre.graph().folders_view().map_values(
                        |p: Seq<Seq<char>>| crate::folder_graph::moved_path(p, start, end),
                    )
                    &&& post.graph().files_view() == pre.graph().files_view().map_values(
                        |f: FileModel| crate::folder_graph::moved_file(f, start, end),
                    )
                    &&& post.names() == pre.names()
                } else {
                    // a file moved: its leaf and its name-index record point
                    // at the destination
                    let i = pre.graph().spec_file_index_at(
                        crate::paths::parent_of(start),
                        start.last(),
                    );
                    let f = pre.graph().files_view()[i];
                    &&& post.graph().folders_view() == pre.graph().folders_view()
                    &&& post.graph().files_view() == pre.graph().files_view().update(
                        i,
                        (FileModel { name: f.name, resource: f.resource, order: f.order, parent: end }),
                    )
                    &&& post.names().entries_view() == pre.names().entries_view().update(
                        crate::resource_names::first_entry_named(
                            pre.names().entries_view(),
                            f.name,
                        ).unwrap(),
                        (
                            f.name,
                            (DescriptorModel {
                                resource: f.resource,
                                order: pre.names().spec_get(f.name).order,
                                parent: end,
                            }),
                        ),
                    )
                }
            },
            Err(e) => {
                &&& post == pre
                &&& Some(e) == pre.graph().spec_move_check(start, end)
            },
        }
    }

    /// Moves a folder or a resource to another folder. A moved file leaf's
    /// name-index record is updated with it: that cross-structure update is
    /// what keeps the index and the graph describing the same project.
    pub fn move_item(&mut self, start: &FolderPath, end: &FolderPath) -> (r: Result<
        (),
        FolderGraphError,
    >)
        requires
            old(self).ready(),
            old(self).wf(),
        ensures
            final(self).wf(),
            final(self).ready(),
            Self::move_rel(*old(self), *final(self), start.deep_view(), end.deep_view(), r),
    {
        let ghost pre = *self;
        let was_folder = self.folder_graph.folder_exists(start);
        let r = self.folder_graph.move_item(start, end);
        match r {
            Err(e) => Err(e),
            Ok(()) => {
                if was_folder {
                    proof {
                        lemma_boss_move_folder_wf(pre, *self, start.deep_view(), end.deep_view());
                    }
                    Ok(())
                } else {
                    let ghost i = pre.graph().spec_file_index_at(
                        crate::paths::parent_of(start.deep_view()),
                        start.deep_view().last(),
                    );
                    let name = &start[start.len() - 1];
                    proof {
                        assert(name@ == start.deep_view().last());
                        assert(pre.graph().has_file_at(
                            crate::paths::parent_of(start.deep_view()),
                            start.deep_view().last(),
                        ));
                        assert(0 <= i < pre.graph().files_view().len()
                            && pre.graph().files_view()[i].parent == crate::paths::parent_of(
                            start.deep_view(),
                        ) && pre.graph().files_view()[i].name == start.deep_view().last());
                        assert(pre.names_maps(
                            pre.graph().files_view()[i].name,
                            pre.graph().files_view()[i].resource,
                        ));
                        let w = choose|w: int|
                            0 <= w < pre.names().entries_view().len() && (
                            #[trigger] pre.names().entries_view()[w]).0
                                == pre.graph().files_view()[i].name;
                        assert(pre.names().has_name(name@));
                    }
                    match self.resource_names.get(name) {
                        None => {
                            proof {
                                assert(false);
                            }
                            Err(FolderGraphError::InternalError)
                        },
                        Some(d) => {
                            let ghost mid = *self;
                            self.resource_names.load_in_resource(
                                name.clone(),
                                ResourceDescriptor::new(d.resource, d.order, clone_path(end)),
                            );
                            proof {
                                lemma_first_entry_named(pre.names().entries_view(), name@);
                                lemma_boss_move_file_wf(
                                    pre,
                                    *self,
                                    start.deep_view(),
                                    end.deep_view(),
                                );
                            }
                            Ok(())
                        },
                    }
                }
            },
        }
    }
}

impl YypBoss {
    /// The stored record a replacement installs: the new definition body
    /// and payload, under the existing name and parent location.
    pub open spec fn replaced_record(
        pre: YypBoss,
        yy: YyFile,
        data: AssociatedData,
    ) -> crate::yy_resource_handler::YyResourceDataModel {
        crate::yy_resource_handler::YyResourceDataModel {
            yy: (crate::yy_resource::YyFileModel {
                name: yy.name@,
                parent: pre.names().spec_get(yy.name@).parent,
                data: yy.data@,
            }),
            assoc: Some(data.model()),
        }
    }

    /// What a successful `replace_resource` does, and when it fails.
    pub open spec fn replace_rel(
        pre: YypBoss,
        post: YypBoss,
        kind: Resource,
        yy: YyFile,
        data: AssociatedData,
        r: Result<(), ResourceManipulationError>,
    ) -> bool {
        match r {
            Ok(()) => {
                &&& pre.names_maps(yy.name@, kind)
                &&& post.graph() == pre.graph()
                &&& post.names() == pre.names()
                &&& forall|other: Resource|
                    other != kind ==> #[trigger] post.handler(other) == pre.handler(other)
                &&& post.handler(kind).reserialize_view()
                    == crate::yy_resource_handler::push_absent(
                    pre.handler(kind).reserialize_view(),
                    yy.name@,
                )
                &&& post.handler(kind).remove_queue_view() == pre.handler(
                    kind,
                ).remove_queue_view()
                &&& post.handler(kind).has_resource(yy.name@)
                &&& (if pre.handler(kind).has_resource(yy.name@) {
                    post.handler(kind).resources_view() == pre.handler(
                        kind,
                    ).resources_view().update(
                        crate::seq_facts::first_keyed(
                            pre.handler(kind).resources_view(),
                            yy.name@,
                        ).unwrap(),
                        (yy.name@, Self::replaced_record(pre, yy, data)),
                    )
                } else {
                    post.handler(kind).resources_view() == pre.handler(
                        kind,
                    ).resources_view().push((yy.name@, Self::replaced_record(pre, yy, data)))
                })
                &&& if pre.handler(kind).has_resource(yy.name@) {
                    match pre.handler(kind).spec_resource(yy.name@).assoc {
                        Some(a) => {
                            &&& post.handler(kind).cleanup_files_view()
                                == crate::yy_resource_handler::merge_absent(
                                pre.handler(kind).cleanup_files_view(),
                                a.stale_files,
                            )
                            &&& post.handler(kind).cleanup_folders_view()
                                == crate::yy_resource_handler::merge_absent(
                                pre.handler(kind).cleanup_folders_view(),
                                a.stale_folders,
                            )
                        },
                        None => {
                            &&& post.handler(kind).cleanup_files_view() == pre.handler(
                                kind,
                            ).cleanup_files_view()
                            &&& post.handler(kind).cleanup_folders_view() == pre.handler(
                                kind,
                            ).cleanup_folders_view()
                        },
                    }
                } else {
                    &&& post.handler(kind).cleanup_files_view() == pre.handler(
                        kind,
                    ).cleanup_files_view()
                    &&& post.handler(kind).cleanup_folders_view() == pre.handler(
                        kind,
                    ).cleanup_folders_view()
                }
            },
            Err(e) => {
                &&& post == pre
                &&& e == ResourceManipulationError::NotFound
                &&& !pre.names_maps(yy.name@, kind)
            },
        }
    }

    /// Replaces the definition and payload of an existing resource. The
    /// existing parent location and order are reused; the prior payload's
    /// stale backing files are queued for deletion at the next flush. Fails
    /// with `NotFound` when no resource of that name and kind exists.
    pub fn replace_resource(&mut self, kind: Resource, yy: YyFile, data: AssociatedData) -> (r:
        Result<(), ResourceManipulationError>)
        requires
            old(self).ready(),
            old(self).wf(),
        ensures
            final(self).wf(),
            final(self).ready(),
            Self::replace_rel(*old(self), *final(self), kind, yy, data, r),
    {
        let ghost pre = *self;
        let ghost nm = yy.name@;
        let entry = match self.resource_names.get(&yy.name) {
            None => {
                proof {
                    lemma_names_maps_needs_name(pre, nm, kind);
                }
                return Err(ResourceManipulationError::NotFound);
            },
            Some(d) => d,
        };
        if !(entry.resource.index_of() == kind.index_of()) {
            proof {
                assert(Resource::spec_of_index(entry.resource.spec_index_of()) == entry.resource);
                assert(Resource::spec_of_index(kind.spec_index_of()) == kind);
                lemma_first_entry_named(pre.names().entries_view(), nm);
                if pre.names_maps(nm, kind) {
                    let i = choose|i: int|
                        0 <= i < pre.names().entries_view().len() && (
                        #[trigger] pre.names().entries_view()[i]).0 == nm
                            && pre.names().entries_view()[i].1.resource == kind;
                    let w = crate::resource_names::first_entry_named(
                        pre.names().entries_view(),
                        nm,
                    ).unwrap();
                    assert(pre.names().entries_view()[i].0 == pre.names().entries_view()[w].0);
                    assert(i == w);
                }
            }
            return Err(ResourceManipulationError::NotFound);
        }
        proof {
            lemma_first_entry_named(pre.names().entries_view(), nm);
            assert(pre.names_maps(nm, kind)) by {
                let w = crate::resource_names::first_entry_named(
                    pre.names().entries_view(),
                    nm,
                ).unwrap();
                assert(pre.names().entries_view()[w].0 == nm);
            }
        }
        let stored = YyFile {
            name: yy.name,
            parent: entry.parent_location,
            data: yy.data,
        };
        let ghost stored_m = stored.model();
        let ghost dm = data.model();
        let idx = kind.index_of();
        let mut h = self.handlers.remove(idx);
        let ghost hpre = pre.handler(kind);
        proof {
            assert(stored_m.name == nm);
            assert(stored_m.parent == pre.names().spec_get(nm).parent);
            if hpre.has_resource(nm) {
                crate::seq_facts::lemma_first_keyed(hpre.resources_view(), nm);
            }
        }
        let _prior = h.set(stored, data);
        self.handlers.insert(idx, h);
        proof {
            assert(self.handlers_seq() =~= pre.handlers_seq().update(
                idx as int,
                self.handlers_seq()[idx as int],
            ));
            if hpre.has_resource(nm) {
                assert(self.handler(kind).resources_view() == hpre.resources_view().update(
                    crate::seq_facts::first_keyed(hpre.resources_view(), nm).unwrap(),
                    (
                        nm,
                        (crate::yy_resource_handler::YyResourceDataModel {
                            yy: stored_m,
                            assoc: Some(dm),
                        }),
                    ),
                ));
            } else {
                assert(self.handler(kind).resources_view() == hpre.resources_view().push(
                    (
                        nm,
                        (crate::yy_resource_handler::YyResourceDataModel {
                            yy: stored_m,
                            assoc: Some(dm),
                        }),
                    ),
                ));
            }
            assert forall|k: int|
                0 <= k < self.handler(kind).resources_view().len() implies self.names_maps(
                (#[trigger] self.handler(kind).resources_view()[k]).0,
                kind,
            ) by {
                assert(Resource::spec_of_index(kind.spec_index_of()) == kind);
                if k < hpre.resources_view().len() && self.handler(kind).resources_view()[k]
                    == hpre.resources_view()[k] {
                    assert(pre.names_maps(hpre.resources_view()[k].0, kind));
                } else {
                    assert(self.handler(kind).resources_view()[k].0 == nm);
                }
            }
            lemma_handler_update_wf(pre, *self, kind);
            assert(self.handler(kind).has_resource(nm)) by {
                if hpre.has_resource(nm) {
                    let w = crate::seq_facts::first_keyed(hpre.resources_view(), nm).unwrap();
                    assert(self.handler(kind).resources_view()[w].0 == nm);
                } else {
                    let n = self.handler(kind).resources_view().len() - 1;
                    assert(self.handler(kind).resources_view()[n].0 == nm);
                }
            }
        }
        Ok(())
    }

    /// Adds the resource if its name is free, replaces it if a resource of
    /// this kind already carries the name. Fails only when the name is held
    /// by a resource of another kind, or (when adding) when the parent
    /// folder is missing or the destination name is taken in it.
    pub fn set_resource(&mut self, kind: Resource, yy: YyFile, data: AssociatedData) -> (r: Result<
        (),
        ResourceManipulationError,
    >)
        requires
            old(self).ready(),
            old(self).wf(),
            old(self).graph().folders_view().len() + old(self).graph().files_view().len()
                <= usize::MAX,
        ensures
            final(self).wf(),
            final(self).ready(),
            if old(self).names_maps(yy.name@, kind) {
                Self::replace_rel(*old(self), *final(self), kind, yy, data, r)
            } else if old(self).names().has_name(yy.name@) {
                r == Err::<(), ResourceManipulationError>(
                    ResourceManipulationError::NameCollision,
                ) && *final(self) == *old(self)
            } else {
                Self::add_rel(*old(self), *final(self), kind, yy, data, r)
            },
    {
        let ghost pre = *self;
        let ghost nm = yy.name@;
        match self.resource_names.get(&yy.name) {
            None => {
                proof {
                    lemma_names_maps_needs_name(pre, nm, kind);
                }
                self.add_resource(kind, yy, data)
            },
            Some(d) => {
                proof {
                    assert(Resource::spec_of_index(d.model().resource.spec_index_of())
                        == d.model().resource);
                    assert(Resource::spec_of_index(kind.spec_index_of()) == kind);
                    lemma_first_entry_named(pre.names().entries_view(), nm);
                    let w = crate::resource_names::first_entry_named(
                        pre.names().entries_view(),
                        nm,
                    ).unwrap();
                    assert(pre.names().entries_view()[w].0 == nm);
                    if d.model().resource == kind {
                        assert(pre.names_maps(nm, kind));
                    } else {
                        if pre.names_maps(nm, kind) {
                            let i = choose|i: int|
                                0 <= i < pre.names().entries_view().len() && (
                                #[trigger] pre.names().entries_view()[i]).0 == nm
                                    && pre.names().entries_view()[i].1.resource == kind;
                            assert(pre.names().entries_view()[i].0
                                == pre.names().entries_view()[w].0);
                            assert(i == w);
                        }
                    }
                }
                if d.resource.index_of() == kind.index_of() {
                    self.replace_resource(kind, yy, data)
                } else {
                    Err(ResourceManipulationError::NameCollision)
                }
            },
        }
    }

    /// What a successful `remove_resource` does, and when it fails.
    pub open spec fn remove_rel(
        pre: YypBoss,
        post: YypBoss,
        kind: Resource,
        name: Seq<char>,
        r: Result<(YyFile, Option<AssociatedData>), ResourceManipulationError>,
    ) -> bool {
        match r {
            Ok(out) => {
                &&& pre.names_maps(name, kind)
                &&& pre.handler(kind).has_resource(name)
                &&& out.0.model() == pre.handler(kind).spec_resource(name).yy
                &&& crate::yy_resource_handler::opt_assoc_model(out.1) == pre.handler(
                    kind,
                ).spec_resource(name).assoc
                &&& post.graph().folders_view() == pre.graph().folders_view()
                &&& post.graph().files_view() == pre.graph().files_view().remove(
                    first_file_named(pre.graph().files_view(), name).unwrap(),
                )
                &&& post.names().entries_view() == pre.names().entries_view().remove(
                    crate::resource_names::first_entry_named(
                        pre.names().entries_view(),
                        name,
                    ).unwrap(),
                )
                &&& !post.names().has_name(name)
                &&& forall|other: Resource|
                    other != kind ==> #[trigger] post.handler(other) == pre.handler(other)
                &&& post.handler(kind).resources_view() == pre.handler(
                    kind,
                ).resources_view().remove(
                    crate::seq_facts::first_keyed(pre.handler(kind).resources_view(), name).unwrap(),
                )
                &&& post.handler(kind).reserialize_view() == pre.handler(
                    kind,
                ).reserialize_view().filter(|x: Seq<char>| x != name)
                &&& post.handler(kind).remove_queue_view()
                    == crate::yy_resource_handler::push_absent(
                    pre.handler(kind).remove_queue_view(),
                    name,
                )
                &&& post.handler(kind).cleanup_files_view() == pre.handler(
                    kind,
                ).cleanup_files_view()
                &&& post.handler(kind).cleanup_folders_view() == pre.handler(
                    kind,
                ).cleanup_folders_view()
            },
            Err(e) => {
                &&& post == pre
                &&& e == ResourceManipulationError::NotFound
                &&& !(pre.names_maps(name, kind) && pre.handler(kind).has_resource(name))
            },
        }
    }

    /// Removes a resource from the folder graph, the name index and its
    /// handler, queues its backing directory for deletion at the next flush,
    /// and returns its definition with whatever payload was resident. Fails
    /// with `NotFound` when the index does not map the name to this kind or
    /// the handler holds no definition for it.
    pub fn remove_resource(&mut self, kind: Resource, name: &String) -> (r: Result<
        (YyFile, Option<AssociatedData>),
        ResourceManipulationError,
    >)
        requires
            old(self).ready(),
            old(self).wf(),
        ensures
            final(self).wf(),
            final(self).ready(),
            Self::remove_rel(*old(self), *final(self), kind, name@, r),
    {
        let ghost pre = *self;
        let ghost nm = name@;
        let entry = match self.resource_names.get(name) {
            None => {
                proof {
                    lemma_names_maps_needs_name(pre, nm, kind);
                }
                return Err(ResourceManipulationError::NotFound);
            },
            Some(d) => d,
        };
        if !(entry.resource.index_of() == kind.index_of()) {
            proof {
                assert(Resource::spec_of_index(entry.resource.spec_index_of()) == entry.resource);
                assert(Resource::spec_of_index(kind.spec_index_of()) == kind);
                lemma_first_entry_named(pre.names().entries_view(), nm);
                if pre.names_maps(nm, kind) {
                    let i = choose|i: int|
                        0 <= i < pre.names().entries_view().len() && (
                        #[trigger] pre.names().entries_view()[i]).0 == nm
                            && pre.names().entries_view()[i].1.resource == kind;
                    let w = crate::resource_names::first_entry_named(
                        pre.names().entries_view(),
                        nm,
                    ).unwrap();
                    assert(pre.names().entries_view()[i].0 == pre.names().entries_view()[w].0);
                    assert(i == w);
                }
            }
            return Err(ResourceManipulationError::NotFound);
        }
        proof {
            lemma_first_entry_named(pre.names().entries_view(), nm);
            assert(pre.names_maps(nm, kind)) by {
                let w = crate::resource_names::first_entry_named(
                    pre.names().entries_view(),
                    nm,
                ).unwrap();
                assert(pre.names().entries_view()[w].0 == nm);
            }
        }
        let idx = kind.index_of();
        {
            let h = &self.handlers[idx];
            if h.get(name).is_none() {
                return Err(ResourceManipulationError::NotFound);
            }
        }
        // every check passed: mutate all three structures together
        let removed_leaf = self.folder_graph.remove_file_named(name);
        proof {
            lemma_first_file_named(pre.graph().files_view(), nm);
            match first_file_named(pre.graph().files_view(), nm) {
                Some(_) => {},
                None => {
                    // the index maps the name, so some leaf carries it
                    let w = crate::resource_names::first_entry_named(
                        pre.names().entries_view(),
                        nm,
                    ).unwrap();
                    assert(pre.has_file_named(pre.names().entries_view()[w].0));
                    let v = choose|v: int|
                        0 <= v < pre.graph().files_view().len() && (
                        #[trigger] pre.graph().files_view()[v]).name == nm;
                    assert(false);
                },
            }
        }
        let _ = self.resource_names.remove(name);
        let ghost mid = *self;
        let mut h = self.handlers.remove(idx);
        let out = h.remove(name, None);
        self.handlers.insert(idx, h);
        match out {
            None => {
                proof {
                    assert(false);
                }
                Err(ResourceManipulationError::InternalError)
            },
            Some(out) => {
                proof {
                    assert(self.handlers_seq() =~= pre.handlers_seq().update(
                        idx as int,
                        self.handlers_seq()[idx as int],
                    ));
                    let hpre = pre.handler(kind);
                    crate::seq_facts::lemma_first_keyed(hpre.resources_view(), nm);
                    let w = crate::seq_facts::first_keyed(hpre.resources_view(), nm).unwrap();
                    assert(0 <= w < hpre.resources_view().len() && hpre.resources_view()[w].0
                        == nm);
                    assert forall|k: int|
                        0 <= k < self.handler(kind).resources_view().len() implies exists|k2: int|
                        0 <= k2 < hpre.resources_view().len() && (
                        #[trigger] hpre.resources_view()[k2]) == (
                        #[trigger] self.handler(kind).resources_view()[k])
                            && hpre.resources_view()[k2].0 != nm by {
                        let k2: int = if k < w {
                            k
                        } else {
                            k + 1
                        };
                        assert(self.handler(kind).resources_view()[k]
                            == hpre.resources_view()[k2]);
                        assert(hpre.resources_view()[k2].0 != hpre.resources_view()[w].0);
                    }
                    lemma_boss_remove_file_wf(pre, *self, kind, nm);
                }
                Ok(out)
            },
        }
    }
}

impl YypBoss {
    /// What a flush does: it drains every handler's queues into one plan, in
    /// kind order, and serializes the project's current shape. Only whoever
    /// runs the plan touches the disk.
    pub open spec fn flush_rel(
        pre: YypBoss,
        post: YypBoss,
        plan: Seq<FsActionModel>,
        folders: Seq<Seq<Seq<char>>>,
        entries: Seq<ProjectEntryModel>,
    ) -> bool {
        &&& post.graph() == pre.graph()
        &&& post.names() == pre.names()
        &&& plan == handlers_plan(pre.handlers_seq(), RESOURCE_KIND_COUNT as int)
        &&& forall|kind: Resource| (#[trigger] post.handler(kind)).queues_empty()
        &&& forall|kind: Resource| (#[trigger] post.handler(kind)).resources_view() == pre.handler(
            kind,
        ).resources_view()
        &&& folders == pre.graph().folders_view()
        &&& entries == pre.graph().files_view().map_values(|f: FileModel| entry_of_leaf(f))
    }

    /// Commits all queued in-memory mutations: every handler is drained into
    /// the returned flush plan, and the project's current folder tree and
    /// resource list are serialized into the returned descriptor. This is
    /// the only point at which on-disk state changes, and only through the
    /// caller running the plan and writing the descriptor.
    pub fn flush(&mut self) -> (r: (Vec<FsAction>, ProjectDescriptor))
        requires
            old(self).ready(),
            old(self).wf(),
        ensures
            final(self).wf(),
            final(self).ready(),
            Self::flush_rel(
                *old(self),
                *final(self),
                plan_model(r.0@),
                r.1.folders.deep_view(),
                entries_model(r.1.resources@),
            ),
    {
        let ghost pre = *self;
        let mut plan: Vec<FsAction> = Vec::new();
        let mut i: usize = 0;
        while i < RESOURCE_KIND_COUNT
            invariant
                i <= RESOURCE_KIND_COUNT,
                pre.wf(),
                self.graph() == pre.graph(),
                self.names() == pre.names(),
                self.ready() == pre.ready(),
                self.handlers_seq().len() == RESOURCE_KIND_COUNT,
                plan_model(plan@) == handlers_plan(pre.handlers_seq(), i as int),
                forall|j: int|
                    i <= j < RESOURCE_KIND_COUNT ==> #[trigger] self.handlers_seq()[j]
                        == pre.handlers_seq()[j],
                forall|j: int|
                    0 <= j < i ==> (#[trigger] self.handlers_seq()[j]).wf()
                        && self.handlers_seq()[j].kind_view() == Resource::spec_of_index(j)
                        && self.handlers_seq()[j].queues_empty()
                        && self.handlers_seq()[j].resources_view()
                        == pre.handlers_seq()[j].resources_view(),
            decreases RESOURCE_KIND_COUNT - i,
        {
            let ghost mid = *self;
            let mut h = self.handlers.remove(i);
            let mut part = h.serialize();
            self.handlers.insert(i, h);
            plan.append(&mut part);
            proof {
                assert(self.handlers_seq() =~= mid.handlers_seq().update(
                    i as int,
                    self.handlers_seq()[i as int],
                ));
                assert(plan_model(plan@) =~= handlers_plan(pre.handlers_seq(), i + 1));
            }
            i += 1;
        }
        let (folders, files) = self.folder_graph.get_full_vfs();
        let mut resources: Vec<ProjectEntry> = Vec::new();
        let mut j: usize = 0;
        while j < files.len()
            invariant
                j <= files.len(),
                files_model(files@) == pre.graph().files_view(),
                resources@.len() == j,
                forall|k: int|
                    0 <= k < j ==> (#[trigger] entries_model(resources@)[k]) == entry_of_leaf(
                        pre.graph().files_view()[k],
                    ),
            decreases files.len() - j,
        {
            let leaf = &files[j];
            let entry = ProjectEntry {
                name: leaf.name.clone(),
                resource: leaf.resource,
                order: leaf.order,
                parent: clone_path(&leaf.parent),
            };
            let ghost prev = resources@;
            resources.push(entry);
            proof {
                assert(files_model(files@)[j as int] == files[j as int].model());
                assert forall|k: int|
                    0 <= k < j + 1 implies (#[trigger] entries_model(resources@)[k])
                    == entry_of_leaf(pre.graph().files_view()[k]) by {
                    assert(entries_model(resources@)[k] == resources@[k].model());
                    if k < j {
                        assert(resources@[k] == prev[k]);
                        assert(entries_model(prev)[k] == prev[k].model());
                    }
                }
            }
            j += 1;
        }
        proof {
            assert(entries_model(resources@) =~= pre.graph().files_view().map_values(
                |f: FileModel| entry_of_leaf(f),
            ));
            assert forall|kind: Resource| (#[trigger] self.handler(kind)).queues_empty()
                && self.handler(kind).resources_view() == pre.handler(
                kind,
            ).resources_view() by {
                assert(0 <= kind.spec_index_of() < RESOURCE_KIND_COUNT);
            }
            assert forall|jj: int|
                0 <= jj < self.graph().files_view().len() implies self.names_maps(
                (#[trigger] self.graph().files_view()[jj]).name,
                self.graph().files_view()[jj].resource,
            ) by {
                assert(pre.names_maps(
                    pre.graph().files_view()[jj].name,
                    pre.graph().files_view()[jj].resource,
                ));
            }
            assert forall|ii: int, k: int|
                0 <= ii < RESOURCE_KIND_COUNT && 0 <= k
                    < self.handlers_seq()[ii].resources_view().len() implies self.names_maps(
                (#[trigger] self.handlers_seq()[ii].resources_view()[k]).0,
                Resource::spec_of_index(ii),
            ) by {
                assert(self.handlers_seq()[ii].resources_view()
                    == pre.handlers_seq()[ii].resources_view());
                assert(pre.names_maps(
                    pre.handlers_seq()[ii].resources_view()[k].0,
                    Resource::spec_of_index(ii),
                ));
            }
        }
        (plan, ProjectDescriptor { folders, resources })
    }

    /// Loads a whole project descriptor into a fresh engine: folders first,
    /// then every resource line at its recorded order. Returns whether every
    /// line was taken, which holds exactly when the loaded shape equals the
    /// descriptor.
    /// Whether a descriptor's folders can all be loaded in order: each path
    /// non-empty and fresh, its parent the root or an earlier folder.
    pub open spec fn folders_loadable(folders: Seq<Seq<Seq<char>>>) -> bool {
        forall|i: int|
            #![trigger folders[i]]
            0 <= i < folders.len() ==> {
                let p = folders[i];
                &&& p.len() > 0
                &&& (crate::paths::parent_of(p).len() == 0 || exists|j: int|
                    0 <= j < i && #[trigger] folders[j] == crate::paths::parent_of(p))
                &&& forall|j: int| 0 <= j < i ==> #[trigger] folders[j] != p
            }
    }

    /// Whether a descriptor's resource lines can all be loaded once its
    /// folders are: names pairwise fresh, parents present, spots free.
    pub open spec fn entries_loadable(
        folders: Seq<Seq<Seq<char>>>,
        entries: Seq<ProjectEntryModel>,
    ) -> bool {
        forall|i: int|
            #![trigger entries[i]]
            0 <= i < entries.len() ==> {
                let e = entries[i];
                &&& (e.parent.len() == 0 || folders.contains(e.parent))
                &&& !folders.contains(e.parent.push(e.name))
                &&& forall|j: int| 0 <= j < i ==> (#[trigger] entries[j]).name != e.name
            }
    }

    /// Whether a whole descriptor loads cleanly into a fresh engine.
    pub open spec fn descriptor_loadable(
        folders: Seq<Seq<Seq<char>>>,
        entries: Seq<ProjectEntryModel>,
    ) -> bool {
        Self::folders_loadable(folders) && Self::entries_loadable(folders, entries)
    }

    pub fn load_project(&mut self, descriptor: &ProjectDescriptor) -> (r: bool)
        requires
            old(self).loading(),
            old(self).wf(),
            old(self).graph().folders_view().len() == 0,
            old(self).graph().files_view().len() == 0,
            old(self).names().entries_view().len() == 0,
        ensures
            final(self).wf(),
            final(self).loading(),
            final(self).handlers_seq() == old(self).handlers_seq(),
            Self::descriptor_loadable(
                descriptor.folders.deep_view(),
                entries_model(descriptor.resources@),
            ) ==> r,
            r <==> {
                &&& final(self).graph().folders_view() == descriptor.folders.deep_view()
                &&& final(self).graph().files_view() == entries_model(
                    descriptor.resources@,
                ).map_values(|e: ProjectEntryModel| leaf_of_entry(e))
                &&& final(self).names().entries_view() == entries_model(
                    descriptor.resources@,
                ).map_values(
                    |e: ProjectEntryModel| (
                        e.name,
                        (DescriptorModel { resource: e.resource, order: e.order, parent: e.parent }),
                    ),
                )
            },
    {
        let ghost pre = *self;
        let mut ok = true;
        let mut i: usize = 0;
        while i < descriptor.folders.len()
            invariant
                i <= descriptor.folders.len(),
                self.loading(),
                self.wf(),
                self.handlers_seq() == pre.handlers_seq(),
                self.graph().files_view() == pre.graph().files_view(),
                self.names() == pre.names(),
                pre.graph().files_view().len() == 0,
                pre.names().entries_view().len() == 0,
                ok ==> self.graph().folders_view() == descriptor.folders.deep_view().take(i as int),
                !ok ==> self.graph().folders_view().len() < i,
                Self::folders_loadable(descriptor.folders.deep_view()) ==> ok,
            decreases descriptor.folders.len() - i,
        {
            let p = &descriptor.folders[i];
            if p.len() == 0 {
                proof {
                    if Self::folders_loadable(descriptor.folders.deep_view()) {
                        assert(descriptor.folders.deep_view()[i as int].len() > 0);
                        assert(p.deep_view() == descriptor.folders.deep_view()[i as int]);
                    }
                }
                ok = false;
            } else {
                let parent = crate::paths::parent_path(p);
                let name = &p[p.len() - 1];
                proof {
                    assert(name@ == p.deep_view().last());
                }
                let ghost gpre = *self;
                let loaded = self.load_folder(&parent, name);
                if loaded {
                    proof {
                        assert(parent.deep_view().push(name@) =~= descriptor.folders.deep_view()[i as int]);
                        if ok {
                            assert(self.graph().folders_view() =~= descriptor.folders.deep_view().take(
                                i + 1,
                            ));
                        }
                    }
                } else {
                    proof {
                        let df = descriptor.folders.deep_view();
                        if Self::folders_loadable(df) && ok {
                            // a loadable folder line always loads: derive the
                            // contradiction with the failed call
                            let pdv = df[i as int];
                            assert(pdv == p.deep_view());
                            assert(gpre.graph().folders_view() == df.take(i as int));
                            assert(gpre.graph().is_location(parent.deep_view())) by {
                                if crate::paths::parent_of(pdv).len() > 0 {
                                    let w = choose|w: int|
                                        0 <= w < i && #[trigger] df[w] == crate::paths::parent_of(
                                            pdv,
                                        );
                                    assert(gpre.graph().folders_view()[w]
                                        == crate::paths::parent_of(pdv));
                                }
                            }
                            assert(!gpre.graph().child_occupied(parent.deep_view(), name@)) by {
                                assert(parent.deep_view().push(name@) =~= pdv);
                                if gpre.graph().has_folder(pdv) {
                                    let w = choose|w: int|
                                        0 <= w < gpre.graph().folders_view().len()
                                            && gpre.graph().folders_view()[w] == pdv;
                                    assert(df[w] == pdv);
                                }
                                if gpre.graph().has_file_at(parent.deep_view(), name@) {
                                    let w = choose|w: int|
                                        0 <= w < gpre.graph().files_view().len() && (
                                        #[trigger] gpre.graph().files_view()[w]).parent
                                            == parent.deep_view() && gpre.graph().files_view()[w].name
                                            == name@;
                                }
                            }
                            assert(loaded);
                        }
                    }
                    ok = false;
                }
            }
            i += 1;
        }
        proof {
            if ok {
                assert(descriptor.folders.deep_view().take(descriptor.folders.deep_view().len() as int)
                    =~= descriptor.folders.deep_view());
            }
        }
        let ghost folders_ok = ok;
        let mut j: usize = 0;
        while j < descriptor.resources.len()
            invariant
                j <= descriptor.resources.len(),
                self.loading(),
                self.wf(),
                self.handlers_seq() == pre.handlers_seq(),
                folders_ok ==> self.graph().folders_view() == descriptor.folders.deep_view(),
                !folders_ok ==> self.graph().folders_view().len() < descriptor.folders.deep_view().len(),
                ok ==> folders_ok,
                ok ==> self.graph().files_view() == entries_model(
                    descriptor.resources@,
                ).map_values(|e: ProjectEntryModel| leaf_of_entry(e)).take(j as int),
                ok ==> self.names().entries_view() == entries_model(
                    descriptor.resources@,
                ).map_values(
                    |e: ProjectEntryModel| (
                        e.name,
                        (DescriptorModel { resource: e.resource, order: e.order, parent: e.parent }),
                    ),
                ).take(j as int),
                !ok ==> self.graph().files_view().len() < j || self.graph().folders_view().len()
                    < descriptor.folders.deep_view().len(),
                self.names().entries_view().len() == self.graph().files_view().len(),
                self.graph().files_view().len() <= j,
                Self::descriptor_loadable(
                    descriptor.folders.deep_view(),
                    entries_model(descriptor.resources@),
                ) ==> ok,
            decreases descriptor.resources.len() - j,
        {
            let entry = &descriptor.resources[j];
            let ghost gpre = *self;
            let loaded = self.load_file(entry);
            if loaded {
                proof {
                    if ok {
                        assert(self.graph().files_view() =~= entries_model(
                            descriptor.resources@,
                        ).map_values(|e: ProjectEntryModel| leaf_of_entry(e)).take(j + 1));
                        assert(self.names().entries_view() =~= entries_model(
                            descriptor.resources@,
                        ).map_values(
                            |e: ProjectEntryModel| (
                                e.name,
                                (DescriptorModel {
                                    resource: e.resource,
                                    order: e.order,
                                    parent: e.parent,
                                }),
                            ),
                        ).take(j + 1));
                    }
                }
            } else {
                proof {
                    let df = descriptor.folders.deep_view();
                    let em = entries_model(descriptor.resources@);
                    if Self::descriptor_loadable(df, em) && ok {
                        // a loadable resource line always loads: derive the
                        // contradiction with the failed call
                        let e = em[j as int];
                        assert(e == entry.model());
                        assert(entry.name@ == e.name);
                        assert(entry.parent.deep_view() == e.parent);
                        assert(gpre.graph().folders_view() == df);
                        assert(!gpre.names().has_name(entry.name@)) by {
                            if gpre.names().has_name(e.name) {
                                let k = choose|k: int|
                                    0 <= k < gpre.names().entries_view().len() && (
                                    #[trigger] gpre.names().entries_view()[k]).0 == e.name;
                                assert(gpre.names().entries_view()[k].0 == em[k].name);
                            }
                        }
                        assert(gpre.graph().is_location(entry.parent.deep_view())) by {
                            if e.parent.len() > 0 {
                                assert(df.contains(e.parent));
                                let w = choose|w: int| 0 <= w < df.len() && df[w] == e.parent;
                                assert(gpre.graph().folders_view()[w] == e.parent);
                            }
                        }
                        assert(!gpre.graph().child_occupied(
                            entry.parent.deep_view(),
                            entry.name@,
                        )) by {
                            if gpre.graph().has_folder(e.parent.push(e.name)) {
                                let w = choose|w: int|
                                    0 <= w < gpre.graph().folders_view().len()
                                        && gpre.graph().folders_view()[w] == e.parent.push(e.name);
                                assert(df.contains(e.parent.push(e.name)));
                            }
                            if gpre.graph().has_file_at(e.parent, e.name) {
                                let w = choose|w: int|
                                    0 <= w < gpre.graph().files_view().len() && (
                                    #[trigger] gpre.graph().files_view()[w]).parent == e.parent
                                        && gpre.graph().files_view()[w].name == e.name;
                                assert(gpre.graph().files_view()[w] == leaf_of_entry(em[w]));
                                assert(em[w].name == e.name);
                            }
                        }
                        assert(loaded);
                    }
                }
                ok = false;
            }
            j += 1;
        }
        proof {
            let fm = entries_model(descriptor.resources@).map_values(
                |e: ProjectEntryModel| leaf_of_entry(e),
            );
            let nm = entries_model(descriptor.resources@).map_values(
                |e: ProjectEntryModel| (
                    e.name,
                    (DescriptorModel { resource: e.resource, order: e.order, parent: e.parent }),
                ),
            );
            if ok {
                assert(fm.take(fm.len() as int) =~= fm);
                assert(nm.take(nm.len() as int) =~= nm);
            } else {
                // something was skipped, so some structure is strictly
                // shorter than the descriptor says
                assert(!(self.graph().folders_view() == descriptor.folders.deep_view()
                    && self.graph().files_view() == fm));
            }
        }
        ok
    }
}

/// The names of a sequence of file leaves, in order.
pub open spec fn leaf_names(s: Seq<FileModel>) -> Seq<Seq<char>> {
    s.map_values(|f: FileModel| f.name)
}

impl YypBoss {
    /// The leaves the deletion of the folder at `path` sweeps away.
    pub open spec fn spec_swept_leaves(&self, path: Seq<Seq<char>>) -> Seq<FileModel> {
        self.graph().files_view().filter(
            |f: FileModel| crate::paths::is_prefix_of(path, f.parent),
        )
    }

    /// The swept leaves whose kind's handler held no definition: the
    /// cascade cannot hand these back, so it reports them.
    pub open spec fn spec_missed_leaves(pre: YypBoss, path: Seq<Seq<char>>) -> Seq<FileModel> {
        pre.spec_swept_leaves(path).filter(
            |f: FileModel| !pre.handler(f.resource).has_resource(f.name),
        )
    }

    /// What a folder deletion does, and when it fails. The cascade over the
    /// contained resources is best-effort: a resource whose definition was
    /// never loaded cannot be handed back, so its name is reported, but the
    /// folder, the leaves and the index entries are removed either way.
    pub open spec fn delete_rel(
        pre: YypBoss,
        post: YypBoss,
        path: Seq<Seq<char>>,
        recursive: bool,
        r: Result<(), DeleteFolderError>,
    ) -> bool {
        match r {
            Err(DeleteFolderError::FolderGraphError(e)) => {
                &&& post == pre
                &&& Some(e) == pre.graph().spec_delete_check(path, recursive)
            },
            _ => {
                let rn = leaf_names(pre.spec_swept_leaves(path));
                &&& pre.graph().spec_delete_check(path, recursive) is None
                &&& post.graph().folders_view() == pre.graph().folders_view().filter(
                    |q: Seq<Seq<char>>| !crate::paths::is_prefix_of(path, q),
                )
                &&& post.graph().files_view() == pre.graph().files_view().filter(
                    |f: FileModel| !crate::paths::is_prefix_of(path, f.parent),
                )
                &&& post.names().entries_view().len() == pre.names().entries_view().len()
                    - rn.len()
                &&& forall|x: Seq<char>|
                    #[trigger] post.names().has_name(x) <==> pre.names().has_name(x)
                        && !rn.contains(x)
                &&& forall|kind: Resource, x: Seq<char>|
                    #[trigger] post.handler(kind).has_resource(x) <==> pre.handler(
                        kind,
                    ).has_resource(x) && !rn.contains(x)
                // every swept resource whose definition was stored has its
                // backing directory queued for deletion at the next flush
                &&& forall|t: int|
                    #![trigger pre.spec_swept_leaves(path)[t]]
                    0 <= t < pre.spec_swept_leaves(path).len() ==> {
                        let f = pre.spec_swept_leaves(path)[t];
                        pre.handler(f.resource).has_resource(f.name) ==> post.handler(
                            f.resource,
                        ).remove_queue_view().contains(f.name)
                    }
                // and nothing swept is still queued for rewriting
                &&& forall|kind: Resource, x: Seq<char>|
                    rn.contains(x) ==> !#[trigger] post.handler(kind).reserialize_view().contains(
                        x,
                    )
                // failures are reported if and only if some swept leaf had
                // no stored definition, and they are exactly those leaves
                &&& match r {
                    Ok(()) => Self::spec_missed_leaves(pre, path).len() == 0,
                    Err(DeleteFolderError::CascadeFailures(failed)) => {
                        &&& failed.deep_view() == leaf_names(Self::spec_missed_leaves(pre, path))
                        &&& failed@.len() > 0
                    },
                    _ => false,
                }
            },
        }
    }

    /// Deletes a folder. Without `recursive` the folder must be empty; with
    /// it the whole subtree goes, and every contained resource is removed
    /// from the index and its handler, its backing directory queued for
    /// deletion. Resources whose definitions were never loaded are reported
    /// in the aggregate error, but do not stop the rest.
    pub fn delete_folder(&mut self, path: &FolderPath, recursive: bool) -> (r: Result<
        (),
        DeleteFolderError,
    >)
        requires
            old(self).ready(),
            old(self).wf(),
        ensures
            final(self).wf(),
            final(self).ready(),
            Self::delete_rel(*old(self), *final(self), path.deep_view(), recursive, r),
    {
        let ghost pre = *self;
        let ghost pd = path.deep_view();
        let leaves = match self.folder_graph.delete_folder(path, recursive) {
            Err(e) => {
                return Err(DeleteFolderError::FolderGraphError(e));
            },
            Ok(leaves) => leaves,
        };
        let ghost rn = leaf_names(pre.spec_swept_leaves(pd));
        let ghost kept_pred = |f: FileModel| !crate::paths::is_prefix_of(pd, f.parent);
        let ghost swept_pred = |f: FileModel| crate::paths::is_prefix_of(pd, f.parent);
        proof {
            assert(leaf_names(files_model(leaves@)) =~= rn);
            crate::seq_facts::lemma_filter_split(pre.graph().files_view(), kept_pred, swept_pred);
            lemma_filter_origin(pre.graph().files_view(), swept_pred);
            lemma_filter_origin(pre.graph().files_view(), kept_pred);
            crate::seq_facts::lemma_filter_pairwise(
                pre.graph().files_view(),
                swept_pred,
                |a: FileModel, b: FileModel| a.name == b.name,
            );
            // swept leaves have pairwise distinct names
            assert forall|t1: int, t2: int|
                0 <= t1 < rn.len() && 0 <= t2 < rn.len() && t1 != t2 implies rn[t1] != rn[t2] by {
                assert(pre.spec_swept_leaves(pd)[t1].name == rn[t1]);
                assert(pre.spec_swept_leaves(pd)[t2].name == rn[t2]);
            }
            // every swept leaf is a project file, so the index knows it
            assert forall|t1: int|
                0 <= t1 < rn.len() implies pre.names().has_name(#[trigger] rn[t1])
                    && pre.names_maps(rn[t1], pre.spec_swept_leaves(pd)[t1].resource) by {
                let swept = pre.spec_swept_leaves(pd);
                assert(pre.graph().files_view().contains(swept[t1]));
                let v = choose|v: int|
                    0 <= v < pre.graph().files_view().len() && pre.graph().files_view()[v]
                        == swept[t1];
                assert(pre.names_maps(
                    pre.graph().files_view()[v].name,
                    pre.graph().files_view()[v].resource,
                ));
                let w = choose|w: int|
                    0 <= w < pre.names().entries_view().len() && (
                    #[trigger] pre.names().entries_view()[w]).0 == swept[t1].name;
                assert(pre.names().has_name(rn[t1]));
            }
        }
        let mut failed: Vec<String> = Vec::new();
        proof {
            assert(failed.deep_view() =~= leaf_names(
                pre.spec_swept_leaves(pd).take(0).filter(
                    |f: FileModel| !pre.handler(f.resource).has_resource(f.name),
                ),
            ));
        }
        let mut t: usize = 0;
        while t < leaves.len()
            invariant
                t <= leaves.len(),
                pre.wf(),
                pre.graph().spec_delete_check(pd, recursive) is None,
                self.ready(),
                rn == leaf_names(pre.spec_swept_leaves(pd)),
                rn == leaf_names(files_model(leaves@)),
                rn.len() == leaves@.len(),
                forall|t1: int, t2: int|
                    0 <= t1 < rn.len() && 0 <= t2 < rn.len() && t1 != t2 ==> rn[t1] != rn[t2],
                forall|t1: int|
                    0 <= t1 < rn.len() ==> pre.names().has_name(#[trigger] rn[t1])
                        && pre.names_maps(rn[t1], pre.spec_swept_leaves(pd)[t1].resource),
                forall|t1: int|
                    0 <= t1 < rn.len() ==> (#[trigger] files_model(leaves@)[t1])
                        == pre.spec_swept_leaves(pd)[t1],
                self.graph().folders_view() == pre.graph().folders_view().filter(
                    |q: Seq<Seq<char>>| !crate::paths::is_prefix_of(pd, q),
                ),
                self.graph().files_view() == pre.graph().files_view().filter(
                    |f: FileModel| !crate::paths::is_prefix_of(pd, f.parent),
                ),
                self.graph().wf(),
                self.names().wf(),
                self.names().entries_view().len() == pre.names().entries_view().len() - t,
                forall|x: Seq<char>|
                    #[trigger] self.names().has_name(x) <==> pre.names().has_name(x)
                        && !rn.take(t as int).contains(x),
                forall|x: Seq<char>, res: Resource|
                    #[trigger] self.names_maps(x, res) <==> pre.names_maps(x, res) && !rn.take(
                        t as int,
                    ).contains(x),
                self.handlers_seq().len() == RESOURCE_KIND_COUNT,
                forall|i: int|
                    0 <= i < RESOURCE_KIND_COUNT ==> (#[trigger] self.handlers_seq()[i]).wf()
                        && self.handlers_seq()[i].kind_view() == Resource::spec_of_index(i),
                forall|kind: Resource, x: Seq<char>|
                    #[trigger] self.handler(kind).has_resource(x) <==> pre.handler(
                        kind,
                    ).has_resource(x) && !rn.take(t as int).contains(x),
                failed.deep_view() == leaf_names(
                    pre.spec_swept_leaves(pd).take(t as int).filter(
                        |f: FileModel| !pre.handler(f.resource).has_resource(f.name),
                    ),
                ),
                forall|t1: int|
                    #![trigger pre.spec_swept_leaves(pd)[t1]]
                    0 <= t1 < t ==> {
                        let f = pre.spec_swept_leaves(pd)[t1];
                        pre.handler(f.resource).has_resource(f.name) ==> self.handler(
                            f.resource,
                        ).remove_queue_view().contains(f.name)
                    },
                forall|kind: Resource, x: Seq<char>|
                    rn.take(t as int).contains(x) ==> !#[trigger] self.handler(
                        kind,
                    ).reserialize_view().contains(x),
            decreases leaves.len() - t,
        {
            let leaf = &leaves[t];
            let ghost nm = leaf.name@;
            proof {
                assert(files_model(leaves@)[t as int] == leaves@[t as int].model());
                assert(rn[t as int] == nm);
                assert(!rn.take(t as int).contains(nm)) by {
                    if rn.take(t as int).contains(nm) {
                        let w = choose|w: int|
                            0 <= w < t && #[trigger] rn.take(t as int)[w] == nm;
                        assert(rn[w] == nm);
                    }
                }
                assert(rn.take(t + 1) =~= rn.take(t as int).push(nm));
                assert forall|x: Seq<char>| #[trigger]
                    rn.take(t + 1).contains(x) <==> rn.take(t as int).contains(x) || x == nm by {
                    if rn.take(t + 1).contains(x) {
                        let w = choose|w: int| 0 <= w < t + 1 && #[trigger] rn.take(t + 1)[w] == x;
                        if w < t {
                            assert(rn.take(t as int)[w] == x);
                        }
                    }
                    if rn.take(t as int).contains(x) {
                        let w = choose|w: int| 0 <= w < t && #[trigger] rn.take(t as int)[w] == x;
                        assert(rn.take(t + 1)[w] == x);
                    }
                    if x == nm {
                        assert(rn.take(t + 1)[t as int] == x);
                    }
                }
                assert(self.names().has_name(nm));
            }
            let ghost mid = *self;
            match self.resource_names.remove(&leaf.name) {
                None => {
                    proof {
                        assert(false);
                    }
                },
                Some(_) => {},
            }
            proof {
                lemma_first_entry_named(mid.names().entries_view(), nm);
                let eidx = crate::resource_names::first_entry_named(
                    mid.names().entries_view(),
                    nm,
                ).unwrap();
                let en = self.names().entries_view();
                let epre = mid.names().entries_view();
                assert(forall|k: int|
                    0 <= k < en.len() ==> #[trigger] en[k] == epre[
                        if k < eidx {
                            k
                        } else {
                            k + 1
                        }
                    ]);
                assert forall|x: Seq<char>| #[trigger]
                    self.names().has_name(x) <==> mid.names().has_name(x) && x != nm by {
                    if self.names().has_name(x) {
                        let v = choose|v: int|
                            0 <= v < en.len() && (#[trigger] en[v]).0 == x;
                        let w: int = if v < eidx {
                            v
                        } else {
                            v + 1
                        };
                        assert(epre[w].0 == x);
                        assert(epre[w].0 != epre[eidx].0 || w == eidx);
                    }
                    if mid.names().has_name(x) && x != nm {
                        let w = choose|w: int|
                            0 <= w < epre.len() && (#[trigger] epre[w]).0 == x;
                        assert(w != eidx);
                        let v: int = if w < eidx {
                            w
                        } else {
                            w - 1
                        };
                        assert(en[v] == epre[w]);
                    }
                }
                assert forall|x: Seq<char>, res: Resource| #[trigger]
                    self.names_maps(x, res) <==> mid.names_maps(x, res) && x != nm by {
                    if self.names_maps(x, res) {
                        let v = choose|v: int|
                            0 <= v < en.len() && (#[trigger] en[v]).0 == x && en[v].1.resource
                                == res;
                        let w: int = if v < eidx {
                            v
                        } else {
                            v + 1
                        };
                        assert(epre[w].0 == x && epre[w].1.resource == res);
                        assert(epre[w].0 != epre[eidx].0 || w == eidx);
                    }
                    if mid.names_maps(x, res) && x != nm {
                        let w = choose|w: int|
                            0 <= w < epre.len() && (#[trigger] epre[w]).0 == x && epre[w].1.resource
                                == res;
                        assert(w != eidx);
                        let v: int = if w < eidx {
                            w
                        } else {
                            w - 1
                        };
                        assert(en[v] == epre[w]);
                    }
                }
            }
            let kind = leaf.resource;
            let idx = kind.index_of();
            let ghost mid2 = *self;
            let mut h = self.handlers.remove(idx);
            let ghost hpre = mid2.handler(kind);
            proof {
                if hpre.has_resource(nm) {
                    crate::seq_facts::lemma_first_keyed(hpre.resources_view(), nm);
                }
            }
            let removed = h.remove(&leaf.name, None);
            self.handlers.insert(idx, h);
            let ghost failed_prev = failed.deep_view();
            if removed.is_none() {
                failed.push(leaf.name.clone());
            }
            proof {
                assert(self.handlers_seq() =~= mid2.handlers_seq().update(
                    idx as int,
                    self.handlers_seq()[idx as int],
                ));
                assert(Resource::spec_of_index(kind.spec_index_of()) == kind);
                assert forall|kk: Resource, x: Seq<char>| #[trigger]
                    self.handler(kk).has_resource(x) <==> mid2.handler(kk).has_resource(x) && !(kk
                    == kind && x == nm) by {
                    if kk.spec_index_of() != kind.spec_index_of() {
                        assert(self.handler(kk) == mid2.handler(kk));
                        assert(Resource::spec_of_index(kk.spec_index_of()) == kk);
                    } else {
                        assert(kk == kind) by {
                            assert(Resource::spec_of_index(kk.spec_index_of()) == kk);
                        }
                        if hpre.has_resource(nm) {
                            let ridx = crate::seq_facts::first_keyed(
                                hpre.resources_view(),
                                nm,
                            ).unwrap();
                            let rv = self.handler(kind).resources_view();
                            let rpre = hpre.resources_view();
                            assert(forall|k: int|
                                0 <= k < rv.len() ==> #[trigger] rv[k] == rpre[
                                    if k < ridx {
                                        k
                                    } else {
                                        k + 1
                                    }
                                ]);
                            if self.handler(kind).has_resource(x) {
                                let v = choose|v: int|
                                    0 <= v < rv.len() && (#[trigger] rv[v]).0 == x;
                                let w: int = if v < ridx {
                                    v
                                } else {
                                    v + 1
                                };
                                assert(rpre[w].0 == x);
                                assert(rpre[w].0 != rpre[ridx].0 || w == ridx);
                            }
                            if mid2.handler(kind).has_resource(x) && x != nm {
                                let w = choose|w: int|
                                    0 <= w < rpre.len() && (#[trigger] rpre[w]).0 == x;
                                assert(w != ridx);
                                let v: int = if w < ridx {
                                    w
                                } else {
                                    w - 1
                                };
                                assert(rv[v] == rpre[w]);
                            }
                        } else {
                            assert(self.handler(kind) == hpre);
                        }
                    }
                }
                // a handler held nm only under its own kind, so clearing the
                // (kind, nm) slot clears nm everywhere
                assert forall|kk: Resource, x: Seq<char>| #[trigger]
                    self.handler(kk).has_resource(x) <==> pre.handler(kk).has_resource(x)
                        && !rn.take(t + 1).contains(x) by {
                    assert(mid.handler(kk).has_resource(x) <==> pre.handler(kk).has_resource(x)
                        && !rn.take(t as int).contains(x));
                    assert(mid2.handler(kk) == mid.handler(kk));
                    assert(rn.take(t + 1).contains(x) <==> rn.take(t as int).contains(x) || x
                        == nm);
                    if kk != kind && x == nm {
                        if pre.handler(kk).has_resource(nm) {
                            // then the index would map nm to two kinds
                            let k = choose|k: int|
                                0 <= k < pre.handler(kk).resources_view().len() && (
                                #[trigger] pre.handler(kk).resources_view()[k]).0 == nm;
                            assert(Resource::spec_of_index(kk.spec_index_of()) == kk);
                            assert(pre.names_maps(nm, kk));
                            assert(pre.names_maps(nm, pre.spec_swept_leaves(pd)[t as int].resource));
                            let i1 = choose|i: int|
                                0 <= i < pre.names().entries_view().len() && (
                                #[trigger] pre.names().entries_view()[i]).0 == nm
                                    && pre.names().entries_view()[i].1.resource == kk;
                            let i2 = choose|i: int|
                                0 <= i < pre.names().entries_view().len() && (
                                #[trigger] pre.names().entries_view()[i]).0 == nm
                                    && pre.names().entries_view()[i].1.resource == kind;
                            assert(pre.names().entries_view()[i1].0
                                == pre.names().entries_view()[i2].0);
                            assert(i1 == i2);
                            assert(kk == kind);
                        }
                    }
                }
                // the handler update left the name index alone: restate the
                // index facts for the final state
                assert(self.names() == mid2.names());
                assert forall|x: Seq<char>, res: Resource| #[trigger]
                    self.names_maps(x, res) <==> pre.names_maps(x, res) && !rn.take(
                    t + 1,
                ).contains(x) by {
                    assert(self.names().entries_view() == mid2.names().entries_view());
                    assert(self.names_maps(x, res) <==> mid2.names_maps(x, res)) by {
                        if self.names_maps(x, res) {
                            let i = choose|i: int|
                                0 <= i < self.names().entries_view().len() && (
                                #[trigger] self.names().entries_view()[i]).0 == x
                                    && self.names().entries_view()[i].1.resource == res;
                            assert(mid2.names().entries_view()[i].0 == x
                                && mid2.names().entries_view()[i].1.resource == res);
                        }
                        if mid2.names_maps(x, res) {
                            let i = choose|i: int|
                                0 <= i < mid2.names().entries_view().len() && (
                                #[trigger] mid2.names().entries_view()[i]).0 == x
                                    && mid2.names().entries_view()[i].1.resource == res;
                            assert(self.names().entries_view()[i].0 == x
                                && self.names().entries_view()[i].1.resource == res);
                        }
                    }
                    assert(mid2.names_maps(x, res) <==> mid.names_maps(x, res) && x != nm);
                    assert(mid.names_maps(x, res) <==> pre.names_maps(x, res) && !rn.take(
                        t as int,
                    ).contains(x));
                    assert(rn.take(t + 1).contains(x) <==> rn.take(t as int).contains(x) || x
                        == nm);
                }
                // the swept leaf's identity and whether its definition was
                // stored
                let swept = pre.spec_swept_leaves(pd);
                let miss = |f: FileModel| !pre.handler(f.resource).has_resource(f.name);
                assert(swept[t as int].name == nm);
                assert(swept[t as int].resource == kind);
                assert(mid2.handler(kind) == mid.handler(kind));
                assert(mid.handler(kind).has_resource(nm) <==> pre.handler(kind).has_resource(nm)
                    && !rn.take(t as int).contains(nm));
                // the failure list follows the missing-definition filter
                assert(swept.take(t + 1) =~= swept.take(t as int).push(swept[t as int]));
                crate::seq_facts::lemma_filter_push(swept.take(t as int), miss, swept[t as int]);
                if removed is None {
                    assert(!hpre.has_resource(nm));
                    assert(miss(swept[t as int]));
                    assert(failed.deep_view() =~= failed_prev.push(nm));
                    assert(leaf_names(swept.take(t + 1).filter(miss)) =~= leaf_names(
                        swept.take(t as int).filter(miss),
                    ).push(nm));
                } else {
                    assert(hpre.has_resource(nm));
                    assert(!miss(swept[t as int]));
                    assert(failed.deep_view() == failed_prev);
                    assert(leaf_names(swept.take(t + 1).filter(miss)) == leaf_names(
                        swept.take(t as int).filter(miss),
                    ));
                }
                // swept names with stored definitions are queued for removal
                assert forall|t1: int|
                    #![trigger pre.spec_swept_leaves(pd)[t1]]
                    0 <= t1 < t + 1 implies {
                    let f = pre.spec_swept_leaves(pd)[t1];
                    pre.handler(f.resource).has_resource(f.name) ==> self.handler(
                        f.resource,
                    ).remove_queue_view().contains(f.name)
                } by {
                    let f = swept[t1];
                    if pre.handler(f.resource).has_resource(f.name) {
                        assert(Resource::spec_of_index(f.resource.spec_index_of()) == f.resource);
                        if f.resource.spec_index_of() != kind.spec_index_of() {
                            assert(self.handler(f.resource) == mid2.handler(f.resource));
                            assert(mid2.handler(f.resource) == mid.handler(f.resource));
                            assert(t1 < t);
                            assert(mid.handler(f.resource).remove_queue_view().contains(f.name));
                        } else {
                            assert(f.resource == kind);
                            if hpre.has_resource(nm) {
                                crate::yy_resource_handler::lemma_push_absent_contains(
                                    hpre.remove_queue_view(),
                                    nm,
                                );
                                assert(self.handler(kind).remove_queue_view()
                                    == crate::yy_resource_handler::push_absent(
                                    hpre.remove_queue_view(),
                                    nm,
                                ));
                                if t1 < t {
                                    assert(mid.handler(kind).remove_queue_view().contains(
                                        f.name,
                                    ));
                                } else {
                                    assert(f.name == nm);
                                }
                            } else {
                                assert(self.handler(kind) == hpre);
                                assert(t1 < t);
                                assert(mid.handler(kind).remove_queue_view().contains(f.name));
                            }
                        }
                    }
                }
                // nothing swept is still queued for rewriting: a queued name
                // is a stored key, and the swept keys are gone
                assert forall|kk: Resource, x: Seq<char>|
                    rn.take(t + 1).contains(x) implies !#[trigger] self.handler(
                    kk,
                ).reserialize_view().contains(x) by {
                    if self.handler(kk).reserialize_view().contains(x) {
                        let w = choose|w: int|
                            0 <= w < self.handler(kk).reserialize_view().len() && self.handler(
                                kk,
                            ).reserialize_view()[w] == x;
                        assert(self.handler(kk).wf()) by {
                            if kk.spec_index_of() == kind.spec_index_of() {
                                assert(self.handler(kk) == self.handler(kind));
                            } else {
                                assert(self.handler(kk) == mid.handler(kk));
                                assert(mid.handlers_seq()[kk.spec_index_of()].wf());
                            }
                        }
                        assert(self.handler(kk).has_resource(x));
                        assert(pre.handler(kk).has_resource(x) && !rn.take(t + 1).contains(x));
                    }
                }
            }
            t += 1;
        }
        proof {
            assert(rn.take(rn.len() as int) =~= rn);
            let swept = pre.spec_swept_leaves(pd);
            let miss = |f: FileModel| !pre.handler(f.resource).has_resource(f.name);
            assert(swept.take(swept.len() as int) =~= swept);
            assert(failed.deep_view() == leaf_names(Self::spec_missed_leaves(pre, pd)));
            lemma_boss_delete_wf(pre, *self, pd, rn);
        }
        if failed.len() == 0 {
            proof {
                assert(leaf_names(Self::spec_missed_leaves(pre, pd)).len() == 0);
            }
            Ok(())
        } else {
            Err(DeleteFolderError::CascadeFailures(failed))
        }
    }
}

/// After a cascade that removed exactly the swept names from the index and
/// the handlers, the engine is well-formed again.
proof fn lemma_boss_delete_wf(pre: YypBoss, post: YypBoss, pd: Seq<Seq<char>>, rn: Seq<Seq<char>>)
    requires
        pre.wf(),
        rn == leaf_names(pre.spec_swept_leaves(pd)),
        post.graph().wf(),
        post.names().wf(),
        post.graph().files_view() == pre.graph().files_view().filter(
            |f: FileModel| !crate::paths::is_prefix_of(pd, f.parent),
        ),
        post.names().entries_view().len() == pre.names().entries_view().len() - rn.len(),
        forall|x: Seq<char>|
            #[trigger] post.names().has_name(x) <==> pre.names().has_name(x) && !rn.contains(x),
        forall|x: Seq<char>, res: Resource|
            #[trigger] post.names_maps(x, res) <==> pre.names_maps(x, res) && !rn.contains(x),
        post.handlers_seq().len() == RESOURCE_KIND_COUNT,
        forall|i: int|
            0 <= i < RESOURCE_KIND_COUNT ==> (#[trigger] post.handlers_seq()[i]).wf()
                && post.handlers_seq()[i].kind_view() == Resource::spec_of_index(i),
        forall|kind: Resource, x: Seq<char>|
            #[trigger] post.handler(kind).has_resource(x) <==> pre.handler(kind).has_resource(x)
                && !rn.contains(x),
    ensures
        post.wf(),
{
    let kept_pred = |f: FileModel| !crate::paths::is_prefix_of(pd, f.parent);
    let swept_pred = |f: FileModel| crate::paths::is_prefix_of(pd, f.parent);
    let fi = post.graph().files_view();
    let swept = pre.spec_swept_leaves(pd);
    crate::seq_facts::lemma_filter_split(pre.graph().files_view(), kept_pred, swept_pred);
    lemma_filter_origin(pre.graph().files_view(), kept_pred);
    lemma_filter_origin(pre.graph().files_view(), swept_pred);
    broadcast use Seq::lemma_filter_pred;
    crate::seq_facts::lemma_filter_pairwise(
        pre.graph().files_view(),
        kept_pred,
        |a: FileModel, b: FileModel| a.name == b.name,
    );
    assert(post.names().entries_view().len() == post.graph().files_view().len());
    // a kept leaf's name was not swept
    assert forall|j: int| 0 <= j < fi.len() implies !rn.contains((#[trigger] fi[j]).name) by {
        if rn.contains(fi[j].name) {
            let w = choose|w: int| 0 <= w < rn.len() && rn[w] == fi[j].name;
            assert(swept[w].name == fi[j].name);
            assert(pre.graph().files_view().contains(fi[j]));
            assert(pre.graph().files_view().contains(swept[w]));
            let v1 = choose|v: int|
                0 <= v < pre.graph().files_view().len() && pre.graph().files_view()[v] == fi[j];
            let v2 = choose|v: int|
                0 <= v < pre.graph().files_view().len() && pre.graph().files_view()[v]
                    == swept[w];
            assert(kept_pred(fi[j]) && swept_pred(swept[w]));
            assert(v1 != v2);
            assert(pre.graph().files_view()[v1].name != pre.graph().files_view()[v2].name);
        }
    }
    assert forall|j: int| 0 <= j < fi.len() implies post.names_maps(
        (#[trigger] fi[j]).name,
        fi[j].resource,
    ) by {
        assert(pre.graph().files_view().contains(fi[j]));
        let v = choose|v: int|
            0 <= v < pre.graph().files_view().len() && pre.graph().files_view()[v] == fi[j];
        assert(pre.names_maps(fi[j].name, fi[j].resource));
    }
    assert forall|k: int| 0 <= k < post.names().entries_view().len() implies post.has_file_named(
        (#[trigger] post.names().entries_view()[k]).0,
    ) by {
        let x = post.names().entries_view()[k].0;
        assert(post.names().has_name(x)) by {
            assert(post.names().entries_view()[k].0 == x);
        }
        assert(pre.names().has_name(x) && !rn.contains(x));
        assert(pre.has_file_named(x));
        let v = choose|v: int|
            0 <= v < pre.graph().files_view().len() && (
            #[trigger] pre.graph().files_view()[v]).name == x;
        assert(kept_pred(pre.graph().files_view()[v])) by {
            if swept_pred(pre.graph().files_view()[v]) {
                Seq::lemma_filter_contains(pre.graph().files_view(), swept_pred, v);
                assert(swept.contains(pre.graph().files_view()[v]));
                let w = choose|w: int|
                    0 <= w < swept.len() && swept[w] == pre.graph().files_view()[v];
                assert(rn[w] == x);
            }
        }
        Seq::lemma_filter_contains(pre.graph().files_view(), kept_pred, v);
        assert(fi.contains(pre.graph().files_view()[v]));
        let u = choose|u: int| 0 <= u < fi.len() && fi[u] == pre.graph().files_view()[v];
        assert(fi[u].name == x);
    }
    assert forall|j1: int, j2: int|
        0 <= j1 < fi.len() && 0 <= j2 < fi.len() && j1 != j2 implies (#[trigger] fi[j1]).name != (
    #[trigger] fi[j2]).name by {}
    assert forall|i: int, k: int|
        0 <= i < RESOURCE_KIND_COUNT && 0 <= k
            < post.handlers_seq()[i].resources_view().len() implies post.names_maps(
        (#[trigger] post.handlers_seq()[i].resources_view()[k]).0,
        Resource::spec_of_index(i),
    ) by {
        let kind = Resource::spec_of_index(i);
        assert(kind.spec_index_of() == i);
        let x = post.handlers_seq()[i].resources_view()[k].0;
        assert(post.handler(kind).has_resource(x)) by {
            assert(post.handler(kind).resources_view()[k].0 == x);
        }
        assert(pre.handler(kind).has_resource(x) && !rn.contains(x));
        let k2 = choose|k2: int|
            0 <= k2 < pre.handler(kind).resources_view().len() && (
            #[trigger] pre.handler(kind).resources_view()[k2]).0 == x;
        assert(pre.names_maps(pre.handler(kind).resources_view()[k2].0, kind));
    }
}

/// If the index maps `name` to some kind, it has an entry named `name`.
proof fn lemma_names_maps_needs_name(b: YypBoss, name: Seq<char>, kind: Resource)
    requires
        !b.names().has_name(name),
    ensures
        !b.names_maps(name, kind),
{
    if b.names_maps(name, kind) {
        let i = choose|i: int|
            0 <= i < b.names().entries_view().len() && (
            #[trigger] b.names().entries_view()[i]).0 == name
                && b.names().entries_view()[i].1.resource == kind;
        assert(b.names().has_name(name));
    }
}

/// Removing one resource's leaf, index entry and handler record together
/// keeps the engine well-formed.
proof fn lemma_boss_remove_file_wf(pre: YypBoss, post: YypBoss, kind: Resource, nm: Seq<char>)
    requires
        pre.wf(),
        pre.names_maps(nm, kind),
        post.graph().wf(),
        post.names().wf(),
        first_file_named(pre.graph().files_view(), nm) is Some,
        post.graph().folders_view() == pre.graph().folders_view(),
        post.graph().files_view() == pre.graph().files_view().remove(
            first_file_named(pre.graph().files_view(), nm).unwrap(),
        ),
        post.names().entries_view() == pre.names().entries_view().remove(
            crate::resource_names::first_entry_named(pre.names().entries_view(), nm).unwrap(),
        ),
        post.handlers_seq().len() == pre.handlers_seq().len(),
        forall|i: int|
            0 <= i < RESOURCE_KIND_COUNT && i != kind.spec_index_of()
                ==> #[trigger] post.handlers_seq()[i] == pre.handlers_seq()[i],
        post.handler(kind).wf(),
        post.handler(kind).kind_view() == kind,
        forall|k: int|
            0 <= k < post.handler(kind).resources_view().len() ==> exists|k2: int|
                0 <= k2 < pre.handler(kind).resources_view().len() && (
                #[trigger] pre.handler(kind).resources_view()[k2]) == (
                #[trigger] post.handler(kind).resources_view()[k]) && pre.handler(
                    kind,
                ).resources_view()[k2].0 != nm,
    ensures
        post.wf(),
{
    lemma_first_file_named(pre.graph().files_view(), nm);
    lemma_first_entry_named(pre.names().entries_view(), nm);
    let fidx = first_file_named(pre.graph().files_view(), nm).unwrap();
    let eidx_opt = crate::resource_names::first_entry_named(pre.names().entries_view(), nm);
    assert(eidx_opt is Some) by {
        if eidx_opt is None {
            let i = choose|i: int|
                0 <= i < pre.names().entries_view().len() && (
                #[trigger] pre.names().entries_view()[i]).0 == nm
                    && pre.names().entries_view()[i].1.resource == kind;
            assert(false);
        }
    }
    let eidx = eidx_opt.unwrap();
    let fi = post.graph().files_view();
    let en = post.names().entries_view();
    let fpre = pre.graph().files_view();
    let epre = pre.names().entries_view();
    assert(forall|j: int|
        0 <= j < fi.len() ==> #[trigger] fi[j] == fpre[
            if j < fidx {
                j
            } else {
                j + 1
            }
        ]);
    assert(forall|k: int|
        0 <= k < en.len() ==> #[trigger] en[k] == epre[
            if k < eidx {
                k
            } else {
                k + 1
            }
        ]);
    // no surviving leaf or entry is named nm
    assert forall|j: int| 0 <= j < fi.len() implies (#[trigger] fi[j]).name != nm by {
        let w: int = if j < fidx {
            j
        } else {
            j + 1
        };
        assert(fpre[w].name != fpre[fidx].name || w == fidx);
    }
    assert forall|k: int| 0 <= k < en.len() implies (#[trigger] en[k]).0 != nm by {
        let w: int = if k < eidx {
            k
        } else {
            k + 1
        };
        assert(epre[w].0 != epre[eidx].0 || w == eidx);
    }
    assert(!post.names().has_name(nm));
    assert forall|j: int| 0 <= j < fi.len() implies post.names_maps(
        (#[trigger] fi[j]).name,
        fi[j].resource,
    ) by {
        let w: int = if j < fidx {
            j
        } else {
            j + 1
        };
        assert(pre.names_maps(fpre[w].name, fpre[w].resource));
        let v = choose|v: int|
            0 <= v < epre.len() && (#[trigger] epre[v]).0 == fpre[w].name && epre[v].1.resource
                == fpre[w].resource;
        assert(v != eidx);
        let v2: int = if v < eidx {
            v
        } else {
            v - 1
        };
        assert(en[v2] == epre[v]);
    }
    assert forall|k: int| 0 <= k < en.len() implies post.has_file_named((#[trigger] en[k]).0) by {
        let w: int = if k < eidx {
            k
        } else {
            k + 1
        };
        assert(pre.has_file_named(epre[w].0));
        let v = choose|v: int|
            0 <= v < fpre.len() && (#[trigger] fpre[v]).name == epre[w].0;
        assert(v != fidx);
        let v2: int = if v < fidx {
            v
        } else {
            v - 1
        };
        assert(fi[v2] == fpre[v]);
    }
    assert forall|j1: int, j2: int|
        0 <= j1 < fi.len() && 0 <= j2 < fi.len() && j1 != j2 implies (#[trigger] fi[j1]).name != (
    #[trigger] fi[j2]).name by {
        let w1: int = if j1 < fidx {
            j1
        } else {
            j1 + 1
        };
        let w2: int = if j2 < fidx {
            j2
        } else {
            j2 + 1
        };
        assert(fpre[w1].name != fpre[w2].name);
    }
    assert forall|i: int, k: int|
        0 <= i < RESOURCE_KIND_COUNT && 0 <= k
            < post.handlers_seq()[i].resources_view().len() implies post.names_maps(
        (#[trigger] post.handlers_seq()[i].resources_view()[k]).0,
        Resource::spec_of_index(i),
    ) by {
        let gi = kind.spec_index_of();
        assert(Resource::spec_of_index(gi) == kind);
        let key = post.handlers_seq()[i].resources_view()[k].0;
        if i != gi {
            assert(post.handlers_seq()[i] == pre.handlers_seq()[i]);
            assert(pre.names_maps(
                pre.handlers_seq()[i].resources_view()[k].0,
                Resource::spec_of_index(i),
            ));
            let v = choose|v: int|
                0 <= v < epre.len() && (#[trigger] epre[v]).0 == key && epre[v].1.resource
                    == Resource::spec_of_index(i);
            // key is not nm: the entry for nm has kind `kind`, and names are
            // unique, so a different-kind key differs from nm... unless the
            // kinds agree; either way the nm entry is gone exactly once
            assert(v != eidx ==> post.names_maps(key, Resource::spec_of_index(i))) by {
                if v != eidx {
                    let v2: int = if v < eidx {
                        v
                    } else {
                        v - 1
                    };
                    assert(en[v2] == epre[v]);
                }
            }
            if v == eidx {
                // then key == nm and kind(i) == kind; but the handler for
                // kind is the updated one, contradiction with i != gi
                assert(epre[eidx].0 == nm);
                assert(epre[eidx].1.resource == Resource::spec_of_index(i));
                assert(pre.names_maps(nm, kind));
                let u = choose|u: int|
                    0 <= u < epre.len() && (#[trigger] epre[u]).0 == nm && epre[u].1.resource
                        == kind;
                assert(epre[u].0 == epre[eidx].0);
                assert(u == eidx);
                assert(Resource::spec_of_index(i) == kind);
                assert(i == gi);
            }
        } else {
            let k2 = choose|k2: int|
                0 <= k2 < pre.handler(kind).resources_view().len() && (
                #[trigger] pre.handler(kind).resources_view()[k2]) == post.handler(
                    kind,
                ).resources_view()[k] && pre.handler(kind).resources_view()[k2].0 != nm;
            assert(pre.names_maps(pre.handler(kind).resources_view()[k2].0, kind));
            let v = choose|v: int|
                0 <= v < epre.len() && (#[trigger] epre[v]).0 == key && epre[v].1.resource
                    == kind;
            assert(v != eidx);
            let v2: int = if v < eidx {
                v
            } else {
                v - 1
            };
            assert(en[v2] == epre[v]);
        }
    }
    assert forall|i: int|
        0 <= i < RESOURCE_KIND_COUNT implies (#[trigger] post.handlers_seq()[i]).wf()
        && post.handlers_seq()[i].kind_view() == Resource::spec_of_index(i) by {
        if i != kind.spec_index_of() {
            assert(post.handlers_seq()[i] == pre.handlers_seq()[i]);
        }
    }
}

/// Rebasing a whole folder subtree keeps the engine well-formed: leaf names,
/// kinds and the name index are untouched.
proof fn lemma_boss_move_folder_wf(
    pre: YypBoss,
    post: YypBoss,
    start: Seq<Seq<char>>,
    end: Seq<Seq<char>>,
)
    requires
        pre.wf(),
        post.graph().wf(),
        post.names() == pre.names(),
        post.handlers_seq() == pre.handlers_seq(),
        post.graph().files_view() == pre.graph().files_view().map_values(
            |f: FileModel| crate::folder_graph::moved_file(f, start, end),
        ),
    ensures
        post.wf(),
{
    let fi = post.graph().files_view();
    assert(forall|j: int|
        0 <= j < fi.len() ==> (#[trigger] fi[j]).name == pre.graph().files_view()[j].name
            && fi[j].resource == pre.graph().files_view()[j].resource);
    assert forall|j: int| 0 <= j < fi.len() implies post.names_maps(
        (#[trigger] fi[j]).name,
        fi[j].resource,
    ) by {
        assert(pre.names_maps(
            pre.graph().files_view()[j].name,
            pre.graph().files_view()[j].resource,
        ));
    }
    assert forall|k: int| 0 <= k < post.names().entries_view().len() implies post.has_file_named(
        (#[trigger] post.names().entries_view()[k]).0,
    ) by {
        assert(pre.has_file_named(pre.names().entries_view()[k].0));
        let w = choose|w: int|
            0 <= w < pre.graph().files_view().len() && (
            #[trigger] pre.graph().files_view()[w]).name == pre.names().entries_view()[k].0;
        assert(fi[w].name == pre.names().entries_view()[k].0);
    }
    assert forall|i: int, k: int|
        0 <= i < RESOURCE_KIND_COUNT && 0 <= k
            < post.handlers_seq()[i].resources_view().len() implies post.names_maps(
        (#[trigger] post.handlers_seq()[i].resources_view()[k]).0,
        Resource::spec_of_index(i),
    ) by {
        assert(pre.names_maps(
            pre.handlers_seq()[i].resources_view()[k].0,
            Resource::spec_of_index(i),
        ));
    }
}

/// Repointing one file leaf and its name-index record to the destination
/// folder keeps the engine well-formed: the key set of the index and the
/// name set of the leaves are unchanged.
proof fn lemma_boss_move_file_wf(
    pre: YypBoss,
    post: YypBoss,
    start: Seq<Seq<char>>,
    end: Seq<Seq<char>>,
)
    requires
        pre.wf(),
        start.len() > 0,
        post.graph().wf(),
        post.handlers_seq() == pre.handlers_seq(),
        pre.graph().has_file_at(crate::paths::parent_of(start), start.last()),
        ({
            let i = pre.graph().spec_file_index_at(crate::paths::parent_of(start), start.last());
            let f = pre.graph().files_view()[i];
            &&& 0 <= i < pre.graph().files_view().len()
            &&& post.graph().files_view() == pre.graph().files_view().update(
                i,
                (FileModel { name: f.name, resource: f.resource, order: f.order, parent: end }),
            )
            &&& pre.names().has_name(f.name)
            &&& post.names().entries_view() == pre.names().entries_view().update(
                crate::resource_names::first_entry_named(pre.names().entries_view(), f.name).unwrap(),
                (
                    f.name,
                    (DescriptorModel {
                        resource: f.resource,
                        order: pre.names().spec_get(f.name).order,
                        parent: end,
                    }),
                ),
            )
            &&& post.names().wf()
        }),
    ensures
        post.wf(),
{
    let i = pre.graph().spec_file_index_at(crate::paths::parent_of(start), start.last());
    let f = pre.graph().files_view()[i];
    lemma_first_entry_named(pre.names().entries_view(), f.name);
    let w = crate::resource_names::first_entry_named(pre.names().entries_view(), f.name).unwrap();
    assert(0 <= w < pre.names().entries_view().len());
    assert(pre.names().entries_view()[w].0 == f.name);
    let fi = post.graph().files_view();
    let en = post.names().entries_view();
    assert(forall|j: int|
        0 <= j < fi.len() ==> (#[trigger] fi[j]).name == pre.graph().files_view()[j].name
            && fi[j].resource == pre.graph().files_view()[j].resource);
    assert(pre.names_maps(f.name, f.resource));
    assert forall|k: int|
        0 <= k < en.len() implies (#[trigger] en[k]).0 == pre.names().entries_view()[k].0 by {
        if k == w {
        }
    }
    assert forall|j: int| 0 <= j < fi.len() implies post.names_maps(
        (#[trigger] fi[j]).name,
        fi[j].resource,
    ) by {
        assert(pre.names_maps(
            pre.graph().files_view()[j].name,
            pre.graph().files_view()[j].resource,
        ));
        let v = choose|v: int|
            0 <= v < pre.names().entries_view().len() && (
            #[trigger] pre.names().entries_view()[v]).0 == fi[j].name
                && pre.names().entries_view()[v].1.resource == fi[j].resource;
        if v == w {
            // the updated record keeps name and kind: f is the unique leaf
            // named f.name
            assert(pre.names().wf());
            assert(en[w].0 == f.name && en[w].1.resource == f.resource);
            assert(fi[j].name == f.name);
            assert(pre.graph().files_view()[j].name == pre.graph().files_view()[i].name);
            assert(j == i);
        } else {
            assert(en[v] == pre.names().entries_view()[v]);
        }
    }
    assert forall|k: int| 0 <= k < en.len() implies post.has_file_named((#[trigger] en[k]).0) by {
        assert(pre.has_file_named(pre.names().entries_view()[k].0));
        let v = choose|v: int|
            0 <= v < pre.graph().files_view().len() && (
            #[trigger] pre.graph().files_view()[v]).name == pre.names().entries_view()[k].0;
        assert(fi[v].name == pre.names().entries_view()[k].0);
    }
    assert forall|i2: int, k: int|
        0 <= i2 < RESOURCE_KIND_COUNT && 0 <= k
            < post.handlers_seq()[i2].resources_view().len() implies post.names_maps(
        (#[trigger] post.handlers_seq()[i2].resources_view()[k]).0,
        Resource::spec_of_index(i2),
    ) by {
        assert(pre.names_maps(
            pre.handlers_seq()[i2].resources_view()[k].0,
            Resource::spec_of_index(i2),
        ));
        let key = pre.handlers_seq()[i2].resources_view()[k].0;
        let v = choose|v: int|
            0 <= v < pre.names().entries_view().len() && (
            #[trigger] pre.names().entries_view()[v]).0 == key
                && pre.names().entries_view()[v].1.resource == Resource::spec_of_index(i2);
        if v == w {
            assert(en[w].0 == key && en[w].1.resource == f.resource);
        } else {
            assert(en[v] == pre.names().entries_view()[v]);
        }
    }
}

/// Pushing one fresh-named file leaf, its name-index entry, and (optionally)
/// its handler record together keeps the engine well-formed.
proof fn lemma_boss_add_file_wf(pre: YypBoss, post: YypBoss, kind: Resource)
    requires
        pre.wf(),
        post.graph().wf(),
        post.names().wf(),
        post.graph().folders_view() == pre.graph().folders_view(),
        post.graph().files_view().len() == pre.graph().files_view().len() + 1,
        post.graph().files_view().drop_last() == pre.graph().files_view(),
        post.names().entries_view().len() == pre.names().entries_view().len() + 1,
        post.names().entries_view().drop_last() == pre.names().entries_view(),
        post.graph().files_view().last().name == post.names().entries_view().last().0,
        post.graph().files_view().last().resource == kind,
        post.names().entries_view().last().1.resource == kind,
        !pre.names().has_name(post.graph().files_view().last().name),
        post.handlers_seq().len() == pre.handlers_seq().len(),
        forall|i: int|
            0 <= i < RESOURCE_KIND_COUNT && i != kind.spec_index_of()
                ==> #[trigger] post.handlers_seq()[i] == pre.handlers_seq()[i],
        post.handler(kind).wf(),
        post.handler(kind).kind_view() == kind,
        forall|k: int|
            0 <= k < post.handler(kind).resources_view().len() ==> ((
            #[trigger] post.handler(kind).resources_view()[k].0) == post.graph().files_view().last().name
                || exists|k2: int|
                0 <= k2 < pre.handler(kind).resources_view().len() && (
                #[trigger] pre.handler(kind).resources_view()[k2].0) == post.handler(
                    kind,
                ).resources_view()[k].0),
    ensures
        post.wf(),
{
    let nm = post.graph().files_view().last().name;
    let fi = post.graph().files_view();
    let en = post.names().entries_view();
    let m = pre.graph().files_view().len() as int;
    assert(forall|j: int| 0 <= j < m ==> #[trigger] fi[j] == pre.graph().files_view()[j]);
    assert(forall|k: int| 0 <= k < m ==> #[trigger] en[k] == pre.names().entries_view()[k]);
    // a pre-existing file is not named nm
    assert forall|j: int| 0 <= j < m implies (#[trigger] fi[j]).name != nm by {
        if fi[j].name == nm {
            assert(pre.names_maps(pre.graph().files_view()[j].name, fi[j].resource));
            let w = choose|w: int|
                0 <= w < pre.names().entries_view().len() && (
                #[trigger] pre.names().entries_view()[w]).0 == fi[j].name;
            assert(pre.names().has_name(nm));
        }
    }
    // every file maps in the index
    assert forall|j: int| 0 <= j < fi.len() implies post.names_maps(
        (#[trigger] fi[j]).name,
        fi[j].resource,
    ) by {
        if j < m {
            assert(pre.names_maps(pre.graph().files_view()[j].name, fi[j].resource));
            let w = choose|w: int|
                0 <= w < pre.names().entries_view().len() && (
                #[trigger] pre.names().entries_view()[w]).0 == fi[j].name
                    && pre.names().entries_view()[w].1.resource == fi[j].resource;
            assert(en[w] == pre.names().entries_view()[w]);
        } else {
            assert(en[en.len() - 1].0 == nm && en[en.len() - 1].1.resource == kind);
        }
    }
    // every entry has a file
    assert forall|k: int| 0 <= k < en.len() implies post.has_file_named(
        (#[trigger] en[k]).0,
    ) by {
        if k < m {
            assert(pre.has_file_named(pre.names().entries_view()[k].0));
            let w = choose|w: int|
                0 <= w < pre.graph().files_view().len() && (
                #[trigger] pre.graph().files_view()[w]).name == pre.names().entries_view()[k].0;
            assert(fi[w] == pre.graph().files_view()[w]);
        } else {
            assert(fi[fi.len() - 1].name == en[k].0);
        }
    }
    // file names stay globally distinct
    assert forall|j1: int, j2: int|
        0 <= j1 < fi.len() && 0 <= j2 < fi.len() && j1 != j2 implies (#[trigger] fi[j1]).name != (
    #[trigger] fi[j2]).name by {
        if j1 == m || j2 == m {
        } else {
            assert(pre.graph().files_view()[j1].name != pre.graph().files_view()[j2].name);
        }
    }
    // handlers: unchanged ones transfer; the touched one's keys all map
    assert forall|i: int, k: int|
        0 <= i < RESOURCE_KIND_COUNT && 0 <= k
            < post.handlers_seq()[i].resources_view().len() implies post.names_maps(
        (#[trigger] post.handlers_seq()[i].resources_view()[k]).0,
        Resource::spec_of_index(i),
    ) by {
        let gi = kind.spec_index_of();
        assert(Resource::spec_of_index(gi) == kind);
        if i != gi {
            assert(post.handlers_seq()[i] == pre.handlers_seq()[i]);
            assert(pre.names_maps(
                pre.handlers_seq()[i].resources_view()[k].0,
                Resource::spec_of_index(i),
            ));
            let key = pre.handlers_seq()[i].resources_view()[k].0;
            let w = choose|w: int|
                0 <= w < pre.names().entries_view().len() && (
                #[trigger] pre.names().entries_view()[w]).0 == key
                    && pre.names().entries_view()[w].1.resource == Resource::spec_of_index(i);
            assert(en[w] == pre.names().entries_view()[w]);
        } else {
            let key = post.handler(kind).resources_view()[k].0;
            if key == nm {
                assert(en[en.len() - 1].0 == nm && en[en.len() - 1].1.resource == kind);
            } else {
                let k2 = choose|k2: int|
                    0 <= k2 < pre.handler(kind).resources_view().len() && (
                    #[trigger] pre.handler(kind).resources_view()[k2].0) == key;
                assert(pre.names_maps(pre.handler(kind).resources_view()[k2].0, kind));
                let w = choose|w: int|
                    0 <= w < pre.names().entries_view().len() && (
                    #[trigger] pre.names().entries_view()[w]).0 == key
                        && pre.names().entries_view()[w].1.resource == kind;
                assert(en[w] == pre.names().entries_view()[w]);
            }
        }
    }
    assert forall|i: int|
        0 <= i < RESOURCE_KIND_COUNT implies (#[trigger] post.handlers_seq()[i]).wf()
        && post.handlers_seq()[i].kind_view() == Resource::spec_of_index(i) by {
        if i != kind.spec_index_of() {
            assert(post.handlers_seq()[i] == pre.handlers_seq()[i]);
        }
    }
}

/// Replacing one handler by a well-formed handler of the same kind, whose
/// resource keys all stand in the (unchanged) name index, keeps the engine
/// well-formed.
proof fn lemma_handler_update_wf(pre: YypBoss, post: YypBoss, kind: Resource)
    requires
        pre.wf(),
        post.graph() == pre.graph(),
        post.names() == pre.names(),
        post.handlers_seq() == pre.handlers_seq().update(
            kind.spec_index_of(),
            post.handlers_seq()[kind.spec_index_of()],
        ),
        post.handlers_seq().len() == pre.handlers_seq().len(),
        post.handler(kind).wf(),
        post.handler(kind).kind_view() == kind,
        forall|k: int|
            0 <= k < post.handler(kind).resources_view().len() ==> post.names_maps(
                (#[trigger] post.handler(kind).resources_view()[k]).0,
                kind,
            ),
    ensures
        post.wf(),
{
    let gi = kind.spec_index_of();
    assert(Resource::spec_of_index(gi) == kind);
    assert forall|j: int|
        0 <= j < post.graph().files_view().len() implies post.names_maps(
        (#[trigger] post.graph().files_view()[j]).name,
        post.graph().files_view()[j].resource,
    ) by {
        assert(pre.names_maps(
            pre.graph().files_view()[j].name,
            pre.graph().files_view()[j].resource,
        ));
    }
    assert forall|i: int, k: int|
        0 <= i < RESOURCE_KIND_COUNT && 0 <= k
            < post.handlers_seq()[i].resources_view().len() implies post.names_maps(
        (#[trigger] post.handlers_seq()[i].resources_view()[k]).0,
        Resource::spec_of_index(i),
    ) by {
        if i != gi {
            assert(post.handlers_seq()[i] == pre.handlers_seq()[i]);
            assert(pre.names_maps(
                pre.handlers_seq()[i].resources_view()[k].0,
                Resource::spec_of_index(i),
            ));
        } else {
            assert(post.names_maps(post.handler(kind).resources_view()[k].0, kind));
        }
    }
    assert forall|i: int|
        0 <= i < RESOURCE_KIND_COUNT implies (#[trigger] post.handlers_seq()[i]).wf()
        && post.handlers_seq()[i].kind_view() == Resource::spec_of_index(i) by {
        if i != gi {
            assert(post.handlers_seq()[i] == pre.handlers_seq()[i]);
        }
    }
}

} // verus!
