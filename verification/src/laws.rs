//! The engine's cross-operation guarantees, stated and proved once over the
//! operation relations that the public methods ensure.

use crate::errors::{DeleteFolderError, ResourceManipulationError};
use crate::folder_graph_error::FolderGraphError;
use crate::paths::is_prefix_of;
use crate::resources::{Resource, RESOURCE_KIND_COUNT};
use crate::yy_resource::{AssociatedData, YyFile};
use crate::yy_resource_handler::{
    merge_absent, lemma_merge_absent, FsActionModel, YyResourceHandler,
};
use crate::yyp_boss::{
    entry_of_leaf, handlers_plan, leaf_names, leaf_of_entry, ProjectEntryModel, YypBoss,
};
use vstd::prelude::*;

verus! {

/// After every operation the file-leaf count of the folder graph equals the
/// entry count of the name index: the two structures describe the same set
/// of resources. Every operation ensures well-formedness, and this is what
/// well-formedness pins down.
pub proof fn lemma_leaf_count_matches_index(b: YypBoss)
    requires
        b.wf(),
    ensures
        b.graph().files_view().len() == b.names().entries_view().len(),
{
}

/// Adding the same name twice in a row fails with a name collision, and the
/// failed second call leaves the project exactly as the first call left it.
pub proof fn lemma_add_twice_collides(
    pre: YypBoss,
    mid: YypBoss,
    post: YypBoss,
    kind: Resource,
    yy: YyFile,
    data: AssociatedData,
    kind2: Resource,
    yy2: YyFile,
    data2: AssociatedData,
    r2: Result<(), ResourceManipulationError>,
)
    requires
        YypBoss::add_rel(pre, mid, kind, yy, data, Ok(())),
        YypBoss::add_rel(mid, post, kind2, yy2, data2, r2),
        yy2.name@ == yy.name@,
    ensures
        r2 == Err::<(), ResourceManipulationError>(ResourceManipulationError::NameCollision),
        post == mid,
{
    let n = mid.names().entries_view().len() - 1;
    assert(mid.names().entries_view()[n].0 == yy.name@);
    assert(mid.names().has_name(yy2.name@));
    match r2 {
        Ok(()) => {
            assert(false);
        },
        Err(e) => {
            match e {
                ResourceManipulationError::NameCollision => {},
                _ => {
                    assert(false);
                },
            }
        },
    }
}

/// Moving a folder into itself or into one of its descendants always fails
/// with `InvalidMove`, and the folder graph is left untouched.
pub proof fn lemma_move_into_descendant_rejected(
    pre: YypBoss,
    post: YypBoss,
    start: Seq<Seq<char>>,
    end: Seq<Seq<char>>,
    r: Result<(), FolderGraphError>,
)
    requires
        pre.wf(),
        pre.graph().has_folder(start),
        pre.graph().is_location(end),
        is_prefix_of(start, end),
        YypBoss::move_rel(pre, post, start, end, r),
    ensures
        r == Err::<(), FolderGraphError>(FolderGraphError::InvalidMove),
        post == pre,
{
    assert(start.len() > 0) by {
        let w = choose|w: int|
            0 <= w < pre.graph().folders_view().len() && pre.graph().folders_view()[w] == start;
    }
    assert(pre.graph().spec_move_check(start, end) == Some(FolderGraphError::InvalidMove));
    match r {
        Ok(()) => {
            assert(false);
        },
        Err(_) => {},
    }
}

/// A non-recursive delete of a folder that still has children fails with
/// `NotEmpty` and leaves the whole project untouched.
pub proof fn lemma_delete_nonempty_rejected(
    pre: YypBoss,
    post: YypBoss,
    path: Seq<Seq<char>>,
    r: Result<(), DeleteFolderError>,
)
    requires
        pre.wf(),
        pre.graph().has_folder(path),
        pre.graph().has_child(path),
        YypBoss::delete_rel(pre, post, path, false, r),
    ensures
        r == Err::<(), DeleteFolderError>(
            DeleteFolderError::FolderGraphError(FolderGraphError::NotEmpty),
        ),
        post == pre,
{
    assert(path.len() > 0) by {
        let w = choose|w: int|
            0 <= w < pre.graph().folders_view().len() && pre.graph().folders_view()[w] == path;
    }
    assert(pre.graph().spec_delete_check(path, false) == Some(FolderGraphError::NotEmpty));
    match r {
        Err(DeleteFolderError::FolderGraphError(_)) => {},
        _ => {
            assert(false);
        },
    }
}

/// A recursive delete removes the folder, every folder below it, and every
/// contained resource from the graph, the name index and the handlers; each
/// swept resource whose definition was stored has its backing directory
/// queued for deletion at the next flush.
pub proof fn lemma_delete_recursive_sweeps(
    pre: YypBoss,
    post: YypBoss,
    path: Seq<Seq<char>>,
    r: Result<(), DeleteFolderError>,
)
    requires
        pre.wf(),
        YypBoss::delete_rel(pre, post, path, true, r),
        !(r matches Err(DeleteFolderError::FolderGraphError(_))),
    ensures
        !post.graph().has_folder(path),
        forall|q: Seq<Seq<char>>| post.graph().has_folder(q) ==> !is_prefix_of(path, q),
        forall|x: Seq<char>|
            leaf_names(pre.spec_swept_leaves(path)).contains(x) ==> !post.names().has_name(x),
        forall|kind: Resource, x: Seq<char>|
            leaf_names(pre.spec_swept_leaves(path)).contains(x) ==> !post.handler(
                kind,
            ).has_resource(x),
        forall|f: crate::folder_graph::FileModel|
            post.graph().files_view().contains(f) ==> !is_prefix_of(path, f.parent),
        forall|t: int|
            #![trigger pre.spec_swept_leaves(path)[t]]
            0 <= t < pre.spec_swept_leaves(path).len() ==> {
                let f = pre.spec_swept_leaves(path)[t];
                pre.handler(f.resource).has_resource(f.name) ==> post.handler(
                    f.resource,
                ).remove_queue_view().contains(f.name)
            },
{
    let kept = |q: Seq<Seq<char>>| !is_prefix_of(path, q);
    crate::seq_facts::lemma_filter_origin(pre.graph().folders_view(), kept);
    broadcast use Seq::lemma_filter_pred;
    assert forall|q: Seq<Seq<char>>| post.graph().has_folder(q) implies !is_prefix_of(
        path,
        q,
    ) by {
        let w = choose|w: int|
            0 <= w < post.graph().folders_view().len() && post.graph().folders_view()[w] == q;
        assert(kept(post.graph().folders_view()[w]));
    }
    assert(!post.graph().has_folder(path)) by {
        if post.graph().has_folder(path) {
            assert(!is_prefix_of(path, path));
        }
    }
    let keptf = |f: crate::folder_graph::FileModel| !is_prefix_of(path, f.parent);
    assert forall|f: crate::folder_graph::FileModel|
        post.graph().files_view().contains(f) implies !is_prefix_of(path, f.parent) by {
        let w = choose|w: int|
            0 <= w < post.graph().files_view().len() && post.graph().files_view()[w] == f;
        assert(keptf(post.graph().files_view()[w]));
    }
}

/// A handler with nothing queued contributes nothing to a flush plan.
pub proof fn lemma_empty_handler_plan(h: YyResourceHandler)
    requires
        h.queues_empty(),
    ensures
        h.spec_plan() == Seq::<FsActionModel>::empty(),
{
    assert(h.spec_plan() =~= Seq::<FsActionModel>::empty());
}

/// A flush over handlers with nothing queued produces the empty plan.
pub proof fn lemma_handlers_plan_all_empty(hs: Seq<YyResourceHandler>, n: int)
    requires
        forall|i: int| 0 <= i < n ==> (#[trigger] hs[i]).queues_empty(),
        n <= hs.len(),
    ensures
        handlers_plan(hs, n) == Seq::<FsActionModel>::empty(),
    decreases n,
{
    if n > 0 {
        lemma_handlers_plan_all_empty(hs, n - 1);
        lemma_empty_handler_plan(hs[n - 1]);
        assert(handlers_plan(hs, n) =~= Seq::<FsActionModel>::empty());
    }
}

/// Loading a project and flushing it immediately, with no modification in
/// between, performs no filesystem work and writes back exactly the shape
/// that was loaded: the flush of a freshly loaded project is a no-op, so a
/// reload yields the same structures again.
pub proof fn lemma_noop_flush_round_trip(
    loaded: YypBoss,
    post: YypBoss,
    dfolders: Seq<Seq<Seq<char>>>,
    dentries: Seq<ProjectEntryModel>,
    plan: Seq<FsActionModel>,
    outf: Seq<Seq<Seq<char>>>,
    oute: Seq<ProjectEntryModel>,
)
    requires
        loaded.wf(),
        forall|kind: Resource| (#[trigger] loaded.handler(kind)).queues_empty(),
        loaded.graph().folders_view() == dfolders,
        loaded.graph().files_view() == dentries.map_values(
            |e: ProjectEntryModel| leaf_of_entry(e),
        ),
        YypBoss::flush_rel(loaded, post, plan, outf, oute),
    ensures
        plan == Seq::<FsActionModel>::empty(),
        outf == dfolders,
        oute == dentries,
{
    assert forall|i: int| 0 <= i < RESOURCE_KIND_COUNT implies (
    #[trigger] loaded.handlers_seq()[i]).queues_empty() by {
        let kind = Resource::spec_of_index(i);
        assert(kind.spec_index_of() == i);
        assert(loaded.handler(kind).queues_empty());
    }
    lemma_handlers_plan_all_empty(loaded.handlers_seq(), RESOURCE_KIND_COUNT as int);
    assert(oute =~= dentries) by {
        assert(oute.len() == dentries.len());
        assert forall|k: int| 0 <= k < oute.len() implies oute[k] == dentries[k] by {
            assert(oute[k] == entry_of_leaf(loaded.graph().files_view()[k]));
            assert(loaded.graph().files_view()[k] == leaf_of_entry(dentries[k]));
        }
    }
}

/// After replacing a resource whose prior payload is resident, a flush with
/// nothing else pending deletes exactly the backing files the old payload
/// named as stale: one `RemoveFile` per named file, under the kind's
/// directory segment, and no `RemoveFile` for anything else.
pub proof fn lemma_replace_then_flush_cleans_exactly(
    pre: YypBoss,
    mid: YypBoss,
    post: YypBoss,
    kind: Resource,
    yy: YyFile,
    data: AssociatedData,
    plan: Seq<FsActionModel>,
    outf: Seq<Seq<Seq<char>>>,
    oute: Seq<ProjectEntryModel>,
)
    requires
        pre.wf(),
        mid.wf(),
        forall|k: Resource| (#[trigger] pre.handler(k)).queues_empty(),
        pre.handler(kind).has_resource(yy.name@),
        pre.handler(kind).spec_resource(yy.name@).assoc is Some,
        YypBoss::replace_rel(pre, mid, kind, yy, data, Ok(())),
        YypBoss::flush_rel(mid, post, plan, outf, oute),
    ensures
        forall|i: int|
            0 <= i < plan.len() ==> match #[trigger] plan[i] {
                FsActionModel::RemoveFile { path } => exists|f: Seq<char>|
                    #[trigger] pre.handler(kind).spec_resource(
                        yy.name@,
                    ).assoc.unwrap().stale_files.contains(f) && path == seq![
                        kind.spec_subpath_name(),
                        f,
                    ],
                _ => true,
            },
        forall|f: Seq<char>|
            pre.handler(kind).spec_resource(yy.name@).assoc.unwrap().stale_files.contains(f)
                ==> plan.contains(
                (FsActionModel::RemoveFile { path: seq![kind.spec_subpath_name(), f] }),
            ),
{
    let stale = pre.handler(kind).spec_resource(yy.name@).assoc.unwrap().stale_files;
    let gi = kind.spec_index_of();
    let h = mid.handler(kind);
    assert(Resource::spec_of_index(gi) == kind);
    assert(mid.handlers_seq().len() == RESOURCE_KIND_COUNT);
    assert(h.kind_view() == kind);
    // every other handler still has empty queues
    assert forall|i: int|
        0 <= i < RESOURCE_KIND_COUNT && i != gi implies (
    #[trigger] mid.handlers_seq()[i]).queues_empty() by {
        let other = Resource::spec_of_index(i);
        assert(other.spec_index_of() == i);
        assert(mid.handler(other) == pre.handler(other));
        assert(pre.handler(other).queues_empty());
    }
    // the touched handler's queues hold exactly the replacement's work
    lemma_merge_absent(pre.handler(kind).cleanup_files_view(), stale);
    assert(h.cleanup_files_view() == merge_absent(Seq::<Seq<char>>::empty(), stale)) by {
        assert(pre.handler(kind).cleanup_files_view() =~= Seq::<Seq<char>>::empty());
    }
    lemma_merge_absent(Seq::<Seq<char>>::empty(), stale);
    assert(h.remove_queue_view().len() == 0);
    // the whole plan is the touched handler's plan
    lemma_handlers_plan_single(mid.handlers_seq(), RESOURCE_KIND_COUNT as int, gi);
    assert(plan == h.spec_plan());
    let p1 = crate::yy_resource_handler::plan_removals(kind, h.remove_queue_view());
    let p2 = crate::yy_resource_handler::plan_folder_cleanups(kind, h.cleanup_folders_view());
    let p3 = crate::yy_resource_handler::plan_file_cleanups(kind, h.cleanup_files_view());
    let p4 = crate::yy_resource_handler::plan_reserialize(
        kind,
        h.resources_view(),
        h.reserialize_view(),
    );
    assert(h.remove_queue_view() =~= Seq::<Seq<char>>::empty());
    assert(p1 =~= Seq::<FsActionModel>::empty());
    lemma_plan_folder_cleanups_shape(kind, h.cleanup_folders_view());
    lemma_plan_file_cleanups_shape(kind, h.cleanup_files_view());
    lemma_plan_reserialize_no_remove_file(kind, h.resources_view(), h.reserialize_view());
    assert forall|i: int| 0 <= i < plan.len() implies match #[trigger] plan[i] {
        FsActionModel::RemoveFile { path } => exists|f: Seq<char>|
            #[trigger] pre.handler(kind).spec_resource(
                yy.name@,
            ).assoc.unwrap().stale_files.contains(f) && path == seq![
                kind.spec_subpath_name(),
                f,
            ],
        _ => true,
    } by {
        assert(plan[i] == (p1 + p2 + p3 + p4)[i]);
        if i < p1.len() + p2.len() {
            assert((p1 + p2 + p3 + p4)[i] == p2[i - p1.len()]);
        } else if i < p1.len() + p2.len() + p3.len() {
            let w = i - p1.len() - p2.len();
            assert((p1 + p2 + p3 + p4)[i] == p3[w]);
            assert(p3[w] == (FsActionModel::RemoveFile {
                path: seq![kind.spec_subpath_name(), h.cleanup_files_view()[w]],
            }));
            assert(h.cleanup_files_view().contains(h.cleanup_files_view()[w]));
            assert(stale.contains(h.cleanup_files_view()[w]));
        } else {
            let w = i - p1.len() - p2.len() - p3.len();
            assert((p1 + p2 + p3 + p4)[i] == p4[w]);
        }
    }
    assert forall|f: Seq<char>| stale.contains(f) implies plan.contains(
        (FsActionModel::RemoveFile { path: seq![kind.spec_subpath_name(), f] }),
    ) by {
        assert(h.cleanup_files_view().contains(f));
        let w = choose|w: int|
            0 <= w < h.cleanup_files_view().len() && h.cleanup_files_view()[w] == f;
        assert(p3[w] == (FsActionModel::RemoveFile {
            path: seq![kind.spec_subpath_name(), f],
        }));
        assert(plan[p1.len() + p2.len() + w] == p3[w]);
    }
}

/// When only one handler has queued work, the concatenated flush plan is
/// exactly that handler's plan.
proof fn lemma_handlers_plan_single(hs: Seq<YyResourceHandler>, n: int, gi: int)
    requires
        0 <= gi < hs.len(),
        n <= hs.len(),
        forall|i: int|
            0 <= i < hs.len() && i != gi ==> (#[trigger] hs[i]).queues_empty(),
    ensures
        handlers_plan(hs, n) == if gi < n {
            hs[gi].spec_plan()
        } else {
            Seq::<FsActionModel>::empty()
        },
    decreases n,
{
    if n > 0 {
        lemma_handlers_plan_single(hs, n - 1, gi);
        if n - 1 != gi {
            lemma_empty_handler_plan(hs[n - 1]);
        }
        if gi < n {
            assert(handlers_plan(hs, n) =~= hs[gi].spec_plan());
        } else {
            assert(handlers_plan(hs, n) =~= Seq::<FsActionModel>::empty());
        }
    } else {
        assert(handlers_plan(hs, n) =~= Seq::<FsActionModel>::empty());
    }
}

/// Folder cleanups are directory removals, one per queued folder.
proof fn lemma_plan_folder_cleanups_shape(kind: Resource, q: Seq<Seq<char>>)
    ensures
        crate::yy_resource_handler::plan_folder_cleanups(kind, q).len() == q.len(),
        forall|i: int|
            0 <= i < q.len() ==> #[trigger] crate::yy_resource_handler::plan_folder_cleanups(
                kind,
                q,
            )[i] == (FsActionModel::RemoveDir { path: seq![kind.spec_subpath_name(), q[i]] }),
    decreases q.len(),
{
    if q.len() > 0 {
        lemma_plan_folder_cleanups_shape(kind, q.drop_last());
        assert(forall|i: int|
            0 <= i < q.len() - 1 ==> #[trigger] q.drop_last()[i] == q[i]);
    }
}

/// File cleanups are file removals, one per queued file.
proof fn lemma_plan_file_cleanups_shape(kind: Resource, q: Seq<Seq<char>>)
    ensures
        crate::yy_resource_handler::plan_file_cleanups(kind, q).len() == q.len(),
        forall|i: int|
            0 <= i < q.len() ==> #[trigger] crate::yy_resource_handler::plan_file_cleanups(
                kind,
                q,
            )[i] == (FsActionModel::RemoveFile { path: seq![kind.spec_subpath_name(), q[i]] }),
    decreases q.len(),
{
    if q.len() > 0 {
        lemma_plan_file_cleanups_shape(kind, q.drop_last());
        assert(forall|i: int|
            0 <= i < q.len() - 1 ==> #[trigger] q.drop_last()[i] == q[i]);
    }
}

/// Rewriting resources never deletes a file: the rewrite segment of a plan
/// holds no `RemoveFile` action.
proof fn lemma_plan_reserialize_no_remove_file(
    kind: Resource,
    resources: Seq<(Seq<char>, crate::yy_resource_handler::YyResourceDataModel)>,
    q: Seq<Seq<char>>,
)
    ensures
        forall|i: int|
            0 <= i < crate::yy_resource_handler::plan_reserialize(kind, resources, q).len()
                ==> !((#[trigger] crate::yy_resource_handler::plan_reserialize(
                kind,
                resources,
                q,
            )[i]) is RemoveFile),
    decreases q.len(),
{
    if q.len() > 0 {
        lemma_plan_reserialize_no_remove_file(kind, resources, q.drop_last());
        let p = crate::yy_resource_handler::plan_reserialize(kind, resources, q);
        let prev = crate::yy_resource_handler::plan_reserialize(kind, resources, q.drop_last());
        assert forall|i: int| 0 <= i < p.len() implies !((#[trigger] p[i]) is RemoveFile) by {
            if i < prev.len() {
                assert(p[i] == prev[i]);
            } else {
                match crate::seq_facts::first_keyed(resources, q.last()) {
                    Some(w) => {
                        let acts = crate::yy_resource_handler::reserialize_actions(
                            kind,
                            resources[w].1,
                        );
                        assert(p[i] == acts[i - prev.len()]);
                    },
                    None => {},
                }
            }
        }
    }
}

} // verus!
