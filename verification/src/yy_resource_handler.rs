//! The per-kind resource store: definitions with their optionally-resident
//! payloads, plus the deferred write-back queues that keep in-memory
//! mutation cheap and confine disk work to flushes.

use crate::paths::clone_path;
use crate::resources::Resource;
use crate::seq_facts::{first_keyed, lemma_filter_push, lemma_first_keyed};
use crate::yy_resource::{AssociatedData, AssociatedDataModel, YyFile, YyFileModel};
use vstd::prelude::*;

verus! {

/// A stored resource: its definition and, when resident, its payload.
pub struct YyResourceData {
    /// The resource's definition.
    pub yy_resource: YyFile,
    /// The payload, when it has been loaded.
    pub associated_data: Option<AssociatedData>,
}

/// The mathematical value of a [`YyResourceData`].
pub ghost struct YyResourceDataModel {
    pub yy: YyFileModel,
    pub assoc: Option<AssociatedDataModel>,
}

impl YyResourceData {
    /// The mathematical value of this stored resource.
    pub open spec fn model(self) -> YyResourceDataModel {
        YyResourceDataModel {
            yy: self.yy_resource.model(),
            assoc: match self.associated_data {
                Some(d) => Some(d.model()),
                None => None,
            },
        }
    }

    /// Copies this stored resource.
    pub fn clone_resource(&self) -> (r: YyResourceData)
        ensures
            r.model() == self.model(),
    {
        YyResourceData {
            yy_resource: self.yy_resource.clone_file(),
            associated_data: match &self.associated_data {
                Some(d) => Some(d.clone_data()),
                None => None,
            },
        }
    }
}

/// One deferred filesystem mutation of a flush plan. Paths are segment
/// lists, resolved against the project's root directory by whoever runs the
/// plan.
pub enum FsAction {
    /// Remove a directory and everything below it.
    RemoveDir { path: Vec<String> },
    /// Remove a single file.
    RemoveFile { path: Vec<String> },
    /// Create a directory and its parents.
    CreateDir { path: Vec<String> },
    /// Serialize a resource's associated payload under `dir`.
    WriteAssociated { dir: Vec<String>, name: String, payload: String },
    /// Write a resource's definition file under `dir`.
    WriteDefinition { dir: Vec<String>, name: String, contents: String },
}

/// The mathematical value of an [`FsAction`].
#[verifier::ext_equal]
pub ghost enum FsActionModel {
    RemoveDir { path: Seq<Seq<char>> },
    RemoveFile { path: Seq<Seq<char>> },
    CreateDir { path: Seq<Seq<char>> },
    WriteAssociated { dir: Seq<Seq<char>>, name: Seq<char>, payload: Seq<char> },
    WriteDefinition { dir: Seq<Seq<char>>, name: Seq<char>, contents: Seq<char> },
}

impl FsAction {
    /// The mathematical value of this action.
    pub open spec fn model(self) -> FsActionModel {
        match self {
            FsAction::RemoveDir { path } => FsActionModel::RemoveDir { path: path.deep_view() },
            FsAction::RemoveFile { path } => FsActionModel::RemoveFile { path: path.deep_view() },
            FsAction::CreateDir { path } => FsActionModel::CreateDir { path: path.deep_view() },
            FsAction::WriteAssociated { dir, name, payload } => FsActionModel::WriteAssociated {
                dir: dir.deep_view(),
                name: name@,
                payload: payload@,
            },
            FsAction::WriteDefinition { dir, name, contents } => FsActionModel::WriteDefinition {
                dir: dir.deep_view(),
                name: name@,
                contents: contents@,
            },
        }
    }
}

/// The mathematical value of a flush plan.
pub open spec fn plan_model(s: Seq<FsAction>) -> Seq<FsActionModel> {
    s.map_values(|a: FsAction| a.model())
}

/// `q` with `x` appended unless already queued: queue entries are
/// idempotent.
pub open spec fn push_absent(q: Seq<Seq<char>>, x: Seq<char>) -> Seq<Seq<char>> {
    if q.contains(x) {
        q
    } else {
        q.push(x)
    }
}

/// `q` with each entry of `xs` appended in order, skipping what is already
/// queued.
pub open spec fn merge_absent(q: Seq<Seq<char>>, xs: Seq<Seq<char>>) -> Seq<Seq<char>>
    decreases xs.len(),
{
    if xs.len() == 0 {
        q
    } else {
        push_absent(merge_absent(q, xs.drop_last()), xs.last())
    }
}

/// No entry occurs twice.
pub open spec fn distinct_seq(q: Seq<Seq<char>>) -> bool {
    forall|i: int, j: int| 0 <= i < q.len() && 0 <= j < q.len() && i != j ==> q[i] != q[j]
}

/// Pushing an entry absent-or-not keeps every queued entry and queues the
/// pushed one.
pub proof fn lemma_push_absent_contains(q: Seq<Seq<char>>, x: Seq<char>)
    ensures
        push_absent(q, x).contains(x),
        forall|y: Seq<char>| q.contains(y) ==> #[trigger] push_absent(q, x).contains(y),
{
    if q.contains(x) {
    } else {
        assert(push_absent(q, x)[q.len() as int] == x);
        assert forall|y: Seq<char>| q.contains(y) implies #[trigger] push_absent(q, x).contains(
            y,
        ) by {
            let w = choose|w: int| 0 <= w < q.len() && q[w] == y;
            assert(push_absent(q, x)[w] == y);
        }
    }
}

/// Queue merging keeps entries unique and adds exactly the entries of `xs`.
pub proof fn lemma_merge_absent(q: Seq<Seq<char>>, xs: Seq<Seq<char>>)
    ensures
        distinct_seq(q) ==> distinct_seq(merge_absent(q, xs)),
        forall|y: Seq<char>|
            #[trigger] merge_absent(q, xs).contains(y) <==> q.contains(y) || xs.contains(y),
    decreases xs.len(),
{
    if xs.len() == 0 {
        assert forall|y: Seq<char>| #[trigger]
            merge_absent(q, xs).contains(y) <==> q.contains(y) || xs.contains(y) by {
            if xs.contains(y) {
                let w = choose|w: int| 0 <= w < xs.len() && xs[w] == y;
            }
        }
    } else {
        lemma_merge_absent(q, xs.drop_last());
        let m = merge_absent(q, xs.drop_last());
        let full = push_absent(m, xs.last());
        assert(merge_absent(q, xs) == full);
        if !m.contains(xs.last()) {
            assert(full == m.push(xs.last()));
            assert(forall|i: int| 0 <= i < m.len() ==> full[i] == m[i]);
        }
        assert forall|y: Seq<char>| #[trigger]
            full.contains(y) <==> q.contains(y) || xs.contains(y) by {
            if full.contains(y) {
                let w = choose|w: int| 0 <= w < full.len() && full[w] == y;
                if w < m.len() {
                    assert(m.contains(y));
                    if xs.drop_last().contains(y) {
                        let v = choose|v: int|
                            0 <= v < xs.drop_last().len() && xs.drop_last()[v] == y;
                        assert(xs[v] == y);
                    }
                } else {
                    assert(y == xs.last());
                    assert(xs[xs.len() - 1] == y);
                }
            }
            if q.contains(y) {
                assert(m.contains(y));
                let w = choose|w: int| 0 <= w < m.len() && m[w] == y;
                assert(full[w] == y);
            }
            if xs.contains(y) {
                let w = choose|w: int| 0 <= w < xs.len() && xs[w] == y;
                if w < xs.len() - 1 {
                    assert(xs.drop_last()[w] == y);
                    assert(m.contains(y));
                    let v = choose|v: int| 0 <= v < m.len() && m[v] == y;
                    assert(full[v] == y);
                } else {
                    if m.contains(y) {
                        let v = choose|v: int| 0 <= v < m.len() && m[v] == y;
                        assert(full[v] == y);
                    } else {
                        assert(full.last() == y);
                    }
                }
            }
        }
        if distinct_seq(q) {
            assert forall|i: int, j: int|
                0 <= i < full.len() && 0 <= j < full.len() && i != j implies full[i] != full[j] by {
                if !m.contains(xs.last()) {
                    if i == full.len() - 1 && j < full.len() - 1 {
                        assert(full[j] == m[j]);
                        assert(m.contains(m[j]));
                    } else if j == full.len() - 1 && i < full.len() - 1 {
                        assert(full[i] == m[i]);
                        assert(m.contains(m[i]));
                    } else if i < m.len() && j < m.len() {
                        assert(full[i] == m[i] && full[j] == m[j]);
                    }
                }
            }
        }
    }
}

/// Whether `q` holds an entry equal to `x`, executably.
pub fn queue_contains(q: &Vec<String>, x: &String) -> (r: bool)
    ensures
        r == q.deep_view().contains(x@),
{
    let mut i: usize = 0;
    while i < q.len()
        invariant
            i <= q.len(),
            forall|j: int| 0 <= j < i ==> q.deep_view()[j] != x@,
        decreases q.len() - i,
    {
        if q[i] == *x {
            proof {
                assert(q.deep_view()[i as int] == x@);
            }
            return true;
        }
        i += 1;
    }
    false
}

/// Appends `x` to `q` unless already queued.
pub fn queue_push_absent(q: &mut Vec<String>, x: String)
    ensures
        final(q).deep_view() == push_absent(old(q).deep_view(), x@),
{
    if !queue_contains(q, &x) {
        let ghost pre = q.deep_view();
        q.push(x);
        proof {
            assert(q.deep_view() =~= pre.push(q@.last()@));
        }
    }
}

/// The payload models of an optionally-resident payload.
pub open spec fn opt_assoc_model(o: Option<AssociatedData>) -> Option<AssociatedDataModel> {
    match o {
        Some(d) => Some(d.model()),
        None => None,
    }
}

/// The flush actions deleting the backing directories of removed resources.
pub open spec fn plan_removals(kind: Resource, q: Seq<Seq<char>>) -> Seq<FsActionModel>
    decreases q.len(),
{
    if q.len() == 0 {
        Seq::empty()
    } else {
        plan_removals(kind, q.drop_last()).push(
            FsActionModel::RemoveDir { path: seq![kind.spec_subpath_name(), q.last()] },
        )
    }
}

/// The flush actions deleting stale backing folders.
pub open spec fn plan_folder_cleanups(kind: Resource, q: Seq<Seq<char>>) -> Seq<FsActionModel>
    decreases q.len(),
{
    if q.len() == 0 {
        Seq::empty()
    } else {
        plan_folder_cleanups(kind, q.drop_last()).push(
            FsActionModel::RemoveDir { path: seq![kind.spec_subpath_name(), q.last()] },
        )
    }
}

/// The flush actions deleting stale backing files.
pub open spec fn plan_file_cleanups(kind: Resource, q: Seq<Seq<char>>) -> Seq<FsActionModel>
    decreases q.len(),
{
    if q.len() == 0 {
        Seq::empty()
    } else {
        plan_file_cleanups(kind, q.drop_last()).push(
            FsActionModel::RemoveFile { path: seq![kind.spec_subpath_name(), q.last()] },
        )
    }
}

/// Extending a plan by one action extends its mathematical value by that
/// action's.
pub proof fn lemma_plan_model_push(s: Seq<FsAction>, x: FsAction)
    ensures
        plan_model(s.push(x)) == plan_model(s).push(x.model()),
{
    assert(plan_model(s.push(x)) =~= plan_model(s).push(x.model()));
}

/// The flush actions rewriting one resource: create its directory, write its
/// payload when resident, write its definition.
pub open spec fn reserialize_actions(kind: Resource, r: YyResourceDataModel) -> Seq<
    FsActionModel,
> {
    let dir = seq![kind.spec_subpath_name(), r.yy.name];
    match r.assoc {
        Some(a) => seq![
            FsActionModel::CreateDir { path: dir },
            FsActionModel::WriteAssociated { dir: dir, name: r.yy.name, payload: a.payload },
            FsActionModel::WriteDefinition { dir: dir, name: r.yy.name, contents: r.yy.data },
        ],
        None => seq![
            FsActionModel::CreateDir { path: dir },
            FsActionModel::WriteDefinition { dir: dir, name: r.yy.name, contents: r.yy.data },
        ],
    }
}

/// The flush actions rewriting every queued resource, in queue order. A
/// queued name no longer stored contributes nothing; a well-formed handler
/// has none.
pub open spec fn plan_reserialize(
    kind: Resource,
    resources: Seq<(Seq<char>, YyResourceDataModel)>,
    q: Seq<Seq<char>>,
) -> Seq<FsActionModel>
    decreases q.len(),
{
    if q.len() == 0 {
        Seq::empty()
    } else {
        plan_reserialize(kind, resources, q.drop_last()) + match first_keyed(
            resources,
            q.last(),
        ) {
            Some(i) => reserialize_actions(kind, resources[i].1),
            None => Seq::empty(),
        }
    }
}

/// The per-kind resource store. It owns the definitions (with their
/// optionally-resident payloads) of one resource kind and accumulates the
/// deferred filesystem mutations that the next flush will perform.
pub struct YyResourceHandler {
    kind: Resource,
    resources: Vec<(String, YyResourceData)>,
    resources_to_reserialize: Vec<String>,
    associated_files_to_cleanup: Vec<String>,
    associated_folders_to_cleanup: Vec<String>,
    resources_to_remove: Vec<String>,
}

/// The mathematical value of the stored resources.
pub open spec fn resources_model(s: Seq<(String, YyResourceData)>) -> Seq<
    (Seq<char>, YyResourceDataModel),
> {
    s.map_values(|e: (String, YyResourceData)| (e.0@, e.1.model()))
}

impl YyResourceHandler {
    /// The kind of resource this handler stores.
    pub closed spec fn kind_view(&self) -> Resource {
        self.kind
    }

    /// The stored resources, keyed by name, in insertion order.
    pub closed spec fn resources_view(&self) -> Seq<(Seq<char>, YyResourceDataModel)> {
        resources_model(self.resources@)
    }

    /// The names queued for rewriting at the next flush.
    pub closed spec fn reserialize_view(&self) -> Seq<Seq<char>> {
        self.resources_to_reserialize.deep_view()
    }

    /// The stale backing files queued for deletion at the next flush.
    pub closed spec fn cleanup_files_view(&self) -> Seq<Seq<char>> {
        self.associated_files_to_cleanup.deep_view()
    }

    /// The stale backing folders queued for deletion at the next flush.
    pub closed spec fn cleanup_folders_view(&self) -> Seq<Seq<char>> {
        self.associated_folders_to_cleanup.deep_view()
    }

    /// The names whose backing directories are queued for deletion at the
    /// next flush.
    pub closed spec fn remove_queue_view(&self) -> Seq<Seq<char>> {
        self.resources_to_remove.deep_view()
    }

    /// Whether a resource named `name` is stored.
    pub open spec fn has_resource(&self, name: Seq<char>) -> bool {
        exists|i: int|
            0 <= i < self.resources_view().len() && (#[trigger] self.resources_view()[i]).0
                == name
    }

    /// The stored resource named `name`.
    pub open spec fn spec_resource(&self, name: Seq<char>) -> YyResourceDataModel
        recommends
            self.has_resource(name),
    {
        match first_keyed(self.resources_view(), name) {
            Some(i) => self.resources_view()[i].1,
            None => self.resources_view()[0].1,
        }
    }

    /// Structural well-formedness: resources are keyed by their own unique
    /// names, every queue is duplicate-free, and every name queued for
    /// rewriting is actually stored.
    pub open spec fn wf(&self) -> bool {
        &&& forall|i: int, j: int|
            0 <= i < self.resources_view().len() && 0 <= j < self.resources_view().len() && i != j
                ==> (#[trigger] self.resources_view()[i]).0 != (
            #[trigger] self.resources_view()[j]).0
        &&& forall|i: int|
            0 <= i < self.resources_view().len() ==> (#[trigger] self.resources_view()[i]).0
                == self.resources_view()[i].1.yy.name
        &&& distinct_seq(self.reserialize_view())
        &&& forall|i: int|
            0 <= i < self.reserialize_view().len() ==> self.has_resource(
                #[trigger] self.reserialize_view()[i],
            )
        &&& distinct_seq(self.remove_queue_view())
        &&& distinct_seq(self.cleanup_files_view())
        &&& distinct_seq(self.cleanup_folders_view())
    }

    /// Everything the next flush will do for this handler, in order:
    /// removals first, then folder and file cleanups, then rewrites. The
    /// ordering prevents a replace-then-remove sequence from resurrecting
    /// stale files.
    pub open spec fn spec_plan(&self) -> Seq<FsActionModel> {
        plan_removals(self.kind_view(), self.remove_queue_view()) + plan_folder_cleanups(
            self.kind_view(),
            self.cleanup_folders_view(),
        ) + plan_file_cleanups(self.kind_view(), self.cleanup_files_view()) + plan_reserialize(
            self.kind_view(),
            self.resources_view(),
            self.reserialize_view(),
        )
    }

    /// Whether nothing is queued: a flush of this handler would do no work.
    pub open spec fn queues_empty(&self) -> bool {
        &&& self.reserialize_view().len() == 0
        &&& self.cleanup_files_view().len() == 0
        &&& self.cleanup_folders_view().len() == 0
        &&& self.remove_queue_view().len() == 0
    }

    /// An empty handler for `kind`.
    pub fn new(kind: Resource) -> (r: YyResourceHandler)
        ensures
            r.wf(),
            r.kind_view() == kind,
            r.resources_view() == Seq::<(Seq<char>, YyResourceDataModel)>::empty(),
            r.queues_empty(),
    {
        let r = YyResourceHandler {
            kind,
            resources: Vec::new(),
            resources_to_reserialize: Vec::new(),
            associated_files_to_cleanup: Vec::new(),
            associated_folders_to_cleanup: Vec::new(),
            resources_to_remove: Vec::new(),
        };
        proof {
            assert(r.resources_view() =~= Seq::<(Seq<char>, YyResourceDataModel)>::empty());
            assert(r.reserialize_view() =~= Seq::<Seq<char>>::empty());
            assert(r.cleanup_files_view() =~= Seq::<Seq<char>>::empty());
            assert(r.cleanup_folders_view() =~= Seq::<Seq<char>>::empty());
            assert(r.remove_queue_view() =~= Seq::<Seq<char>>::empty());
        }
        r
    }

    /// The position of the resource named `name`, if any.
    fn find_resource(&self, name: &String) -> (r: Option<usize>)
        ensures
            match r {
                Some(i) => {
                    &&& Some(i as int) == first_keyed(self.resources_view(), name@)
                    &&& 0 <= i < self.resources_view().len()
                    &&& self.resources_view()[i as int].0 == name@
                },
                None => !self.has_resource(name@),
            },
    {
        proof {
            lemma_first_keyed(self.resources_view(), name@);
        }
        let mut i: usize = 0;
        while i < self.resources.len()
            invariant
                i <= self.resources.len(),
                forall|j: int| 0 <= j < i ==> (#[trigger] self.resources_view()[j]).0 != name@,
            decreases self.resources.len() - i,
        {
            if self.resources[i].0 == *name {
                proof {
                    lemma_first_keyed(self.resources_view(), name@);
                    assert(self.resources_view()[i as int].0 == name@);
                    match first_keyed(self.resources_view(), name@) {
                        Some(w) => {
                            assert(w == i as int);
                        },
                        None => {
                            assert(false);
                        },
                    }
                }
                return Some(i);
            }
            i += 1;
        }
        None
    }

    /// A reference to the stored resource named `name`, if any. The payload
    /// may be absent: it is loaded lazily and can be discarded at any time.
    pub fn get(&self, name: &String) -> (r: Option<&YyResourceData>)
        ensures
            match r {
                Some(d) => self.has_resource(name@) && d.model() == self.spec_resource(name@),
                None => !self.has_resource(name@),
            },
    {
        match self.find_resource(name) {
            Some(i) => Some(&self.resources[i].1),
            None => None,
        }
    }

    /// Stores `value` under its own name, without touching the queues: the
    /// raw upsert under `set` and `load_on_startup`. Returns the displaced
    /// resource, if any.
    pub fn insert_resource(&mut self, value: YyFile, associated_data: Option<AssociatedData>) -> (r:
        Option<YyResourceData>)
        requires
            old(self).wf(),
        ensures
            final(self).wf(),
            final(self).kind_view() == old(self).kind_view(),
            final(self).reserialize_view() == old(self).reserialize_view(),
            final(self).cleanup_files_view() == old(self).cleanup_files_view(),
            final(self).cleanup_folders_view() == old(self).cleanup_folders_view(),
            final(self).remove_queue_view() == old(self).remove_queue_view(),
            match r {
                Some(prior) => {
                    &&& old(self).has_resource(value.name@)
                    &&& prior.model() == old(self).spec_resource(value.name@)
                    &&& final(self).resources_view() == old(self).resources_view().update(
                        first_keyed(old(self).resources_view(), value.name@).unwrap(),
                        (
                            value.name@,
                            (YyResourceDataModel {
                                yy: value.model(),
                                assoc: opt_assoc_model(associated_data),
                            }),
                        ),
                    )
                },
                None => {
                    &&& !old(self).has_resource(value.name@)
                    &&& final(self).resources_view() == old(self).resources_view().push(
                        (
                            value.name@,
                            (YyResourceDataModel {
                                yy: value.model(),
                                assoc: opt_assoc_model(associated_data),
                            }),
                        ),
                    )
                },
            },
    {
        let key = value.name.clone();
        let data = YyResourceData { yy_resource: value, associated_data };
        match self.find_resource(&key) {
            Some(i) => {
                let ghost pre = *self;
                let ghost gi = i as int;
                let prior = self.resources.remove(i);
                self.resources.insert(i, (key, data));
                proof {
                    assert(self.resources_view() =~= pre.resources_view().update(
                        gi,
                        (self.resources@[gi].0@, self.resources@[gi].1.model()),
                    ));
                    assert forall|a: int, b: int|
                        0 <= a < self.resources_view().len() && 0 <= b
                            < self.resources_view().len() && a != b implies (
                    #[trigger] self.resources_view()[a]).0 != (
                    #[trigger] self.resources_view()[b]).0 by {
                        if a != gi {
                            assert(self.resources_view()[a] == pre.resources_view()[a]);
                        }
                        if b != gi {
                            assert(self.resources_view()[b] == pre.resources_view()[b]);
                        }
                        assert(pre.resources_view()[gi].0 == self.resources_view()[gi].0);
                    }
                    assert forall|j: int|
                        0 <= j < self.reserialize_view().len() implies self.has_resource(
                        #[trigger] self.reserialize_view()[j],
                    ) by {
                        assert(pre.has_resource(pre.reserialize_view()[j]));
                        let w = choose|w: int|
                            0 <= w < pre.resources_view().len() && pre.resources_view()[w].0
                                == pre.reserialize_view()[j];
                        assert(self.resources_view()[w].0 == pre.resources_view()[w].0);
                    }
                }
                Some(prior.1)
            },
            None => {
                let ghost pre = *self;
                self.resources.push((key, data));
                proof {
                    assert(self.resources_view() =~= pre.resources_view().push(
                        (self.resources@.last().0@, self.resources@.last().1.model()),
                    ));
                    assert forall|j: int|
                        0 <= j < self.reserialize_view().len() implies self.has_resource(
                        #[trigger] self.reserialize_view()[j],
                    ) by {
                        assert(pre.has_resource(pre.reserialize_view()[j]));
                        let w = choose|w: int|
                            0 <= w < pre.resources_view().len() && pre.resources_view()[w].0
                                == pre.reserialize_view()[j];
                        assert(self.resources_view()[w].0 == pre.resources_view()[w].0);
                    }
                }
                None
            },
        }
    }

    /// Adds a brand-new resource, queueing it for rewriting at the next
    /// flush. Fails when a resource of that name is already stored.
    pub fn add(&mut self, value: YyFile, associated_data: AssociatedData) -> (r: Result<(), ()>)
        requires
            old(self).wf(),
        ensures
            final(self).wf(),
            final(self).kind_view() == old(self).kind_view(),
            match r {
                Ok(()) => {
                    &&& !old(self).has_resource(value.name@)
                    &&& final(self).resources_view() == old(self).resources_view().push(
                        (
                            value.name@,
                            (YyResourceDataModel {
                                yy: value.model(),
                                assoc: Some(associated_data.model()),
                            }),
                        ),
                    )
                    &&& final(self).reserialize_view() == push_absent(
                        old(self).reserialize_view(),
                        value.name@,
                    )
                    &&& final(self).remove_queue_view() == old(self).remove_queue_view()
                    &&& final(self).cleanup_files_view() == old(self).cleanup_files_view()
                    &&& final(self).cleanup_folders_view() == old(self).cleanup_folders_view()
                },
                Err(()) => old(self).has_resource(value.name@) && *final(self) == *old(self),
            },
    {
        if self.find_resource(&value.name).is_some() {
            return Err(());
        }
        let _ = self.set(value, associated_data);
        Ok(())
    }

    /// Adds or replaces the resource, queueing it for rewriting at the next
    /// flush. When a resource is replaced and its old payload is resident,
    /// the backing files and folders that payload names as stale are queued
    /// for deletion. Never fails; returns the displaced resource, if any.
    pub fn set(&mut self, value: YyFile, associated_data: AssociatedData) -> (r: Option<
        YyResourceData,
    >)
        requires
            old(self).wf(),
        ensures
            final(self).wf(),
            final(self).kind_view() == old(self).kind_view(),
            final(self).reserialize_view() == push_absent(
                old(self).reserialize_view(),
                value.name@,
            ),
            final(self).remove_queue_view() == old(self).remove_queue_view(),
            match r {
                Some(prior) => {
                    &&& old(self).has_resource(value.name@)
                    &&& prior.model() == old(self).spec_resource(value.name@)
                    &&& final(self).resources_view() == old(self).resources_view().update(
                        first_keyed(old(self).resources_view(), value.name@).unwrap(),
                        (
                            value.name@,
                            (YyResourceDataModel {
                                yy: value.model(),
                                assoc: Some(associated_data.model()),
                            }),
                        ),
                    )
                    &&& match prior.model().assoc {
                        Some(a) => {
                            &&& final(self).cleanup_files_view() == merge_absent(
                                old(self).cleanup_files_view(),
                                a.stale_files,
                            )
                            &&& final(self).cleanup_folders_view() == merge_absent(
                                old(self).cleanup_folders_view(),
                                a.stale_folders,
                            )
                        },
                        None => {
                            &&& final(self).cleanup_files_view() == old(self).cleanup_files_view()
                            &&& final(self).cleanup_folders_view() == old(
                                self,
                            ).cleanup_folders_view()
                        },
                    }
                },
                None => {
                    &&& !old(self).has_resource(value.name@)
                    &&& final(self).resources_view() == old(self).resources_view().push(
                        (
                            value.name@,
                            (YyResourceDataModel {
                                yy: value.model(),
                                assoc: Some(associated_data.model()),
                            }),
                        ),
                    )
                    &&& final(self).cleanup_files_view() == old(self).cleanup_files_view()
                    &&& final(self).cleanup_folders_view() == old(self).cleanup_folders_view()
                },
            },
    {
        let ghost nm = value.name@;
        let key = value.name.clone();
        let ret = self.insert_resource(value, Some(associated_data));
        let ghost mid = *self;
        queue_push_absent(&mut self.resources_to_reserialize, key);
        proof {
            assert(self.resources_view() == mid.resources_view());
            assert(mid.has_resource(nm)) by {
                match ret {
                    Some(_) => {
                        let w = first_keyed(old(self).resources_view(), nm).unwrap();
                        lemma_first_keyed(old(self).resources_view(), nm);
                        assert(mid.resources_view()[w].0 == nm);
                    },
                    None => {
                        assert(mid.resources_view().last().0 == nm);
                        assert(mid.resources_view()[mid.resources_view().len() - 1].0 == nm);
                    },
                }
            }
            if !mid.reserialize_view().contains(nm) {
                assert(self.reserialize_view() == mid.reserialize_view().push(nm));
                assert forall|j: int|
                    0 <= j < self.reserialize_view().len() implies self.has_resource(
                    #[trigger] self.reserialize_view()[j],
                ) by {
                    if j < mid.reserialize_view().len() {
                        assert(self.reserialize_view()[j] == mid.reserialize_view()[j]);
                        assert(mid.has_resource(mid.reserialize_view()[j]));
                    } else {
                        assert(self.reserialize_view()[j] == nm);
                    }
                }
                assert forall|a: int, b: int|
                    0 <= a < self.reserialize_view().len() && 0 <= b
                        < self.reserialize_view().len() && a != b implies self.reserialize_view()[a]
                    != self.reserialize_view()[b] by {
                    let q = mid.reserialize_view();
                    if a == q.len() && b < q.len() {
                        assert(q.contains(q[b]));
                    } else if b == q.len() && a < q.len() {
                        assert(q.contains(q[a]));
                    }
                }
            } else {
                assert(self.reserialize_view() == mid.reserialize_view());
                assert forall|j: int|
                    0 <= j < self.reserialize_view().len() implies self.has_resource(
                    #[trigger] self.reserialize_view()[j],
                ) by {
                    assert(mid.has_resource(mid.reserialize_view()[j]));
                }
            }
        }
        match &ret {
            Some(prior) => {
                match &prior.associated_data {
                    Some(a) => {
                        queue_merge_absent(&mut self.associated_files_to_cleanup, &a.stale_files);
                        queue_merge_absent(
                            &mut self.associated_folders_to_cleanup,
                            &a.stale_folders,
                        );
                        proof {
                            lemma_merge_absent(mid.cleanup_files_view(), a.stale_files.deep_view());
                            lemma_merge_absent(
                                mid.cleanup_folders_view(),
                                a.stale_folders.deep_view(),
                            );
                        }
                    },
                    None => {},
                }
            },
            None => {},
        }
        ret
    }

    /// Loads a resource in on startup: no payload is tracked and nothing is
    /// marked dirty.
    pub fn load_on_startup(&mut self, value: YyFile)
        requires
            old(self).wf(),
        ensures
            final(self).wf(),
            final(self).kind_view() == old(self).kind_view(),
            final(self).reserialize_view() == old(self).reserialize_view(),
            final(self).cleanup_files_view() == old(self).cleanup_files_view(),
            final(self).cleanup_folders_view() == old(self).cleanup_folders_view(),
            final(self).remove_queue_view() == old(self).remove_queue_view(),
            !old(self).has_resource(value.name@) ==> final(self).resources_view() == old(
                self,
            ).resources_view().push(
                (value.name@, (YyResourceDataModel { yy: value.model(), assoc: None })),
            ),
            old(self).has_resource(value.name@) ==> final(self).resources_view() == old(
                self,
            ).resources_view().update(
                first_keyed(old(self).resources_view(), value.name@).unwrap(),
                (value.name@, (YyResourceDataModel { yy: value.model(), assoc: None })),
            ),
    {
        let _ = self.insert_resource(value, None);
    }

    /// Installs freshly loaded associated data for the resource named
    /// `name`, discarding whatever payload was resident. The caller performs
    /// the actual disk read; this fails only when the resource is not
    /// stored.
    pub fn load_resource_associated_data(&mut self, name: &String, data: AssociatedData) -> (r:
        Result<(), ()>)
        requires
            old(self).wf(),
        ensures
            final(self).wf(),
            final(self).kind_view() == old(self).kind_view(),
            final(self).reserialize_view() == old(self).reserialize_view(),
            final(self).cleanup_files_view() == old(self).cleanup_files_view(),
            final(self).cleanup_folders_view() == old(self).cleanup_folders_view(),
            final(self).remove_queue_view() == old(self).remove_queue_view(),
            match r {
                Ok(()) => {
                    &&& old(self).has_resource(name@)
                    &&& final(self).resources_view() == old(self).resources_view().update(
                        first_keyed(old(self).resources_view(), name@).unwrap(),
                        (
                            name@,
                            (YyResourceDataModel {
                                yy: old(self).spec_resource(name@).yy,
                                assoc: Some(data.model()),
                            }),
                        ),
                    )
                },
                Err(()) => !old(self).has_resource(name@) && *final(self) == *old(self),
            },
    {
        match self.find_resource(name) {
            None => Err(()),
            Some(i) => {
                let ghost pre = *self;
                let ghost gi = i as int;
                let entry = self.resources.remove(i);
                let updated = YyResourceData {
                    yy_resource: entry.1.yy_resource,
                    associated_data: Some(data),
                };
                self.resources.insert(i, (entry.0, updated));
                proof {
                    assert(self.resources_view() =~= pre.resources_view().update(
                        gi,
                        (self.resources@[gi].0@, self.resources@[gi].1.model()),
                    ));
                    assert forall|a: int, b: int|
                        0 <= a < self.resources_view().len() && 0 <= b
                            < self.resources_view().len() && a != b implies (
                    #[trigger] self.resources_view()[a]).0 != (
                    #[trigger] self.resources_view()[b]).0 by {
                        if a != gi {
                            assert(self.resources_view()[a] == pre.resources_view()[a]);
                        }
                        if b != gi {
                            assert(self.resources_view()[b] == pre.resources_view()[b]);
                        }
                        assert(pre.resources_view()[gi].0 == self.resources_view()[gi].0);
                    }
                    assert forall|j: int|
                        0 <= j < self.reserialize_view().len() implies self.has_resource(
                        #[trigger] self.reserialize_view()[j],
                    ) by {
                        assert(pre.has_resource(pre.reserialize_view()[j]));
                        let w = choose|w: int|
                            0 <= w < pre.resources_view().len() && pre.resources_view()[w].0
                                == pre.reserialize_view()[j];
                        assert(self.resources_view()[w].0 == pre.resources_view()[w].0);
                    }
                }
                Ok(())
            },
        }
    }

    /// Removes the resource named `name` and queues its whole backing
    /// directory for deletion at the next flush. `loaded` is the payload the
    /// caller managed to load for a non-resident resource (the load is
    /// best-effort: a failed load does not abort the removal); the returned
    /// payload is the resident one when there was one, else `loaded`.
    pub fn remove(&mut self, name: &String, loaded: Option<AssociatedData>) -> (r: Option<
        (YyFile, Option<AssociatedData>),
    >)
        requires
            old(self).wf(),
        ensures
            final(self).wf(),
            final(self).kind_view() == old(self).kind_view(),
            final(self).cleanup_files_view() == old(self).cleanup_files_view(),
            final(self).cleanup_folders_view() == old(self).cleanup_folders_view(),
            match r {
                Some(out) => {
                    &&& old(self).has_resource(name@)
                    &&& out.0.model() == old(self).spec_resource(name@).yy
                    &&& opt_assoc_model(out.1) == (match old(self).spec_resource(name@).assoc {
                        Some(a) => Some(a),
                        None => opt_assoc_model(loaded),
                    })
                    &&& final(self).resources_view() == old(self).resources_view().remove(
                        first_keyed(old(self).resources_view(), name@).unwrap(),
                    )
                    &&& final(self).reserialize_view() == old(self).reserialize_view().filter(
                        |x: Seq<char>| x != name@,
                    )
                    &&& final(self).remove_queue_view() == push_absent(
                        old(self).remove_queue_view(),
                        name@,
                    )
                },
                None => !old(self).has_resource(name@) && *final(self) == *old(self),
            },
    {
        match self.find_resource(name) {
            None => None,
            Some(i) => {
                let ghost pre = *self;
                let ghost gi = i as int;
                let entry = self.resources.remove(i);
                // drop the name from the rewrite queue: nothing should be
                // rewritten for a removed resource
                let mut kept: Vec<String> = Vec::new();
                let mut j: usize = 0;
                while j < self.resources_to_reserialize.len()
                    invariant
                        j <= self.resources_to_reserialize.len(),
                        pre.reserialize_view() == self.resources_to_reserialize.deep_view(),
                        kept.deep_view() == pre.reserialize_view().take(j as int).filter(
                            |x: Seq<char>| x != name@,
                        ),
                    decreases self.resources_to_reserialize.len() - j,
                {
                    proof {
                        assert(pre.reserialize_view().take(j + 1) =~= pre.reserialize_view().take(
                            j as int,
                        ).push(pre.reserialize_view()[j as int]));
                        lemma_filter_push(
                            pre.reserialize_view().take(j as int),
                            |x: Seq<char>| x != name@,
                            pre.reserialize_view()[j as int],
                        );
                    }
                    if !(self.resources_to_reserialize[j] == *name) {
                        kept.push(self.resources_to_reserialize[j].clone());
                        proof {
                            assert(kept.deep_view() =~= pre.reserialize_view().take(j + 1).filter(
                                |x: Seq<char>| x != name@,
                            ));
                        }
                    } else {
                        proof {
                            assert(pre.reserialize_view()[j as int] == name@);
                        }
                    }
                    j += 1;
                }
                proof {
                    assert(pre.reserialize_view().take(pre.reserialize_view().len() as int)
                        =~= pre.reserialize_view());
                }
                self.resources_to_reserialize = kept;
                queue_push_absent(&mut self.resources_to_remove, name.clone());
                let out_assoc: Option<AssociatedData> = match entry.1.associated_data {
                    Some(a) => Some(a),
                    None => loaded,
                };
                proof {
                    assert(self.resources_view() =~= pre.resources_view().remove(gi));
                    assert forall|a: int, b: int|
                        0 <= a < self.resources_view().len() && 0 <= b
                            < self.resources_view().len() && a != b implies (
                    #[trigger] self.resources_view()[a]).0 != (
                    #[trigger] self.resources_view()[b]).0 by {
                        let wa: int = if a < gi {
                            a
                        } else {
                            a + 1
                        };
                        let wb: int = if b < gi {
                            b
                        } else {
                            b + 1
                        };
                        assert(self.resources_view()[a] == pre.resources_view()[wa]);
                        assert(self.resources_view()[b] == pre.resources_view()[wb]);
                    }
                    crate::seq_facts::lemma_filter_origin(
                        pre.reserialize_view(),
                        |x: Seq<char>| x != name@,
                    );
                    crate::seq_facts::lemma_filter_pairwise(
                        pre.reserialize_view(),
                        |x: Seq<char>| x != name@,
                        |a: Seq<char>, b: Seq<char>| a == b,
                    );
                    broadcast use Seq::lemma_filter_pred;
                    assert forall|j2: int|
                        0 <= j2 < self.reserialize_view().len() implies self.has_resource(
                        #[trigger] self.reserialize_view()[j2],
                    ) by {
                        let x = self.reserialize_view()[j2];
                        assert(pre.reserialize_view().contains(x));
                        let w = choose|w: int|
                            0 <= w < pre.reserialize_view().len() && pre.reserialize_view()[w]
                                == x;
                        assert(pre.has_resource(x));
                        let v = choose|v: int|
                            0 <= v < pre.resources_view().len() && pre.resources_view()[v].0 == x;
                        assert(x != name@);
                        assert(pre.resources_view()[gi].0 == name@);
                        assert(v != gi);
                        let v2: int = if v < gi {
                            v
                        } else {
                            v - 1
                        };
                        assert(self.resources_view()[v2] == pre.resources_view()[v]);
                    }
                }
                Some((entry.1.yy_resource, out_assoc))
            },
        }
    }

    /// Drains every queue into the flush plan for this handler: directory
    /// removals first, then folder and file cleanups, then rewrites of every
    /// queued resource. The stored resources themselves are untouched; only
    /// the caller performs filesystem work.
    pub fn serialize(&mut self) -> (r: Vec<FsAction>)
        requires
            old(self).wf(),
        ensures
            final(self).wf(),
            final(self).kind_view() == old(self).kind_view(),
            final(self).resources_view() == old(self).resources_view(),
            final(self).queues_empty(),
            plan_model(r@) == old(self).spec_plan(),
    {
        let ghost pre = *self;
        let mut out: Vec<FsAction> = Vec::new();
        let mut i: usize = 0;
        while i < self.resources_to_remove.len()
            invariant
                i <= self.resources_to_remove.len(),
                *self == pre,
                plan_model(out@) == plan_removals(
                    pre.kind_view(),
                    pre.remove_queue_view().take(i as int),
                ),
            decreases self.resources_to_remove.len() - i,
        {
            let mut path: Vec<String> = Vec::new();
            path.push(String::from_str(self.kind.subpath_name()));
            path.push(self.resources_to_remove[i].clone());
            proof {
                assert(path.deep_view() =~= seq![
                    pre.kind_view().spec_subpath_name(),
                    pre.remove_queue_view()[i as int],
                ]);
            }
            let ghost old_out = out@;
            let ghost act = FsAction::RemoveDir { path: path };
            proof {
                assert(pre.remove_queue_view().take(i + 1).drop_last()
                    =~= pre.remove_queue_view().take(i as int));
                assert(pre.remove_queue_view().take(i + 1).last()
                    == pre.remove_queue_view()[i as int]);
            }
            out.push(FsAction::RemoveDir { path });
            proof {
                lemma_plan_model_push(old_out, act);
                assert(plan_model(out@) == plan_removals(
                    pre.kind_view(),
                    pre.remove_queue_view().take(i + 1),
                ));
            }
            i += 1;
        }
        proof {
            assert(pre.remove_queue_view().take(pre.remove_queue_view().len() as int)
                =~= pre.remove_queue_view());
        }
        let ghost seg1 = plan_removals(pre.kind_view(), pre.remove_queue_view());
        let mut j: usize = 0;
        while j < self.associated_folders_to_cleanup.len()
            invariant
                j <= self.associated_folders_to_cleanup.len(),
                *self == pre,
                seg1 == plan_removals(pre.kind_view(), pre.remove_queue_view()),
                plan_model(out@) == seg1 + plan_folder_cleanups(
                    pre.kind_view(),
                    pre.cleanup_folders_view().take(j as int),
                ),
            decreases self.associated_folders_to_cleanup.len() - j,
        {
            let mut path: Vec<String> = Vec::new();
            path.push(String::from_str(self.kind.subpath_name()));
            path.push(self.associated_folders_to_cleanup[j].clone());
            proof {
                assert(path.deep_view() =~= seq![
                    pre.kind_view().spec_subpath_name(),
                    pre.cleanup_folders_view()[j as int],
                ]);
            }
            let ghost old_out = out@;
            let ghost act = FsAction::RemoveDir { path: path };
            proof {
                assert(pre.cleanup_folders_view().take(j + 1).drop_last()
                    =~= pre.cleanup_folders_view().take(j as int));
                assert(pre.cleanup_folders_view().take(j + 1).last()
                    == pre.cleanup_folders_view()[j as int]);
            }
            out.push(FsAction::RemoveDir { path });
            proof {
                lemma_plan_model_push(old_out, act);
                assert(seg1 + plan_folder_cleanups(
                    pre.kind_view(),
                    pre.cleanup_folders_view().take(j + 1),
                ) =~= (seg1 + plan_folder_cleanups(
                    pre.kind_view(),
                    pre.cleanup_folders_view().take(j as int),
                )).push(act.model()));
                assert(plan_model(out@) == seg1 + plan_folder_cleanups(
                    pre.kind_view(),
                    pre.cleanup_folders_view().take(j + 1),
                ));
            }
            j += 1;
        }
        proof {
            assert(pre.cleanup_folders_view().take(pre.cleanup_folders_view().len() as int)
                =~= pre.cleanup_folders_view());
        }
        let ghost seg2 = seg1 + plan_folder_cleanups(pre.kind_view(), pre.cleanup_folders_view());
        let mut k: usize = 0;
        while k < self.associated_files_to_cleanup.len()
            invariant
                k <= self.associated_files_to_cleanup.len(),
                *self == pre,
                seg2 == plan_removals(pre.kind_view(), pre.remove_queue_view())
                    + plan_folder_cleanups(pre.kind_view(), pre.cleanup_folders_view()),
                plan_model(out@) == seg2 + plan_file_cleanups(
                    pre.kind_view(),
                    pre.cleanup_files_view().take(k as int),
                ),
            decreases self.associated_files_to_cleanup.len() - k,
        {
            let mut path: Vec<String> = Vec::new();
            path.push(String::from_str(self.kind.subpath_name()));
            path.push(self.associated_files_to_cleanup[k].clone());
            proof {
                assert(path.deep_view() =~= seq![
                    pre.kind_view().spec_subpath_name(),
                    pre.cleanup_files_view()[k as int],
                ]);
            }
            let ghost old_out = out@;
            let ghost act = FsAction::RemoveFile { path: path };
            proof {
                assert(pre.cleanup_files_view().take(k + 1).drop_last()
                    =~= pre.cleanup_files_view().take(k as int));
                assert(pre.cleanup_files_view().take(k + 1).last()
                    == pre.cleanup_files_view()[k as int]);
            }
            out.push(FsAction::RemoveFile { path });
            proof {
                lemma_plan_model_push(old_out, act);
                assert(seg2 + plan_file_cleanups(
                    pre.kind_view(),
                    pre.cleanup_files_view().take(k + 1),
                ) =~= (seg2 + plan_file_cleanups(
                    pre.kind_view(),
                    pre.cleanup_files_view().take(k as int),
                )).push(act.model()));
                assert(plan_model(out@) == seg2 + plan_file_cleanups(
                    pre.kind_view(),
                    pre.cleanup_files_view().take(k + 1),
                ));
            }
            k += 1;
        }
        proof {
            assert(pre.cleanup_files_view().take(pre.cleanup_files_view().len() as int)
                =~= pre.cleanup_files_view());
        }
        let ghost seg3 = seg2 + plan_file_cleanups(pre.kind_view(), pre.cleanup_files_view());
        let mut m: usize = 0;
        while m < self.resources_to_reserialize.len()
            invariant
                m <= self.resources_to_reserialize.len(),
                *self == pre,
                pre.wf(),
                seg3 == plan_removals(pre.kind_view(), pre.remove_queue_view())
                    + plan_folder_cleanups(pre.kind_view(), pre.cleanup_folders_view())
                    + plan_file_cleanups(pre.kind_view(), pre.cleanup_files_view()),
                plan_model(out@) == seg3 + plan_reserialize(
                    pre.kind_view(),
                    pre.resources_view(),
                    pre.reserialize_view().take(m as int),
                ),
            decreases self.resources_to_reserialize.len() - m,
        {
            let ghost takem = pre.reserialize_view().take(m as int);
            proof {
                assert(pre.reserialize_view().take(m + 1).drop_last() =~= takem);
                assert(pre.reserialize_view().take(m + 1).last()
                    == pre.reserialize_view()[m as int]);
            }
            let name = self.resources_to_reserialize[m].clone();
            match self.find_resource(&name) {
                Some(ri) => {
                    let mut dir: Vec<String> = Vec::new();
                    dir.push(String::from_str(self.kind.subpath_name()));
                    dir.push(name.clone());
                    proof {
                        assert(dir.deep_view() =~= seq![
                            pre.kind_view().spec_subpath_name(),
                            pre.reserialize_view()[m as int],
                        ]);
                    }
                    let entry = &self.resources[ri].1;
                    let ghost out0 = out@;
                    let ghost dirdv = dir.deep_view();
                    let ghost rm = pre.resources_view()[ri as int].1;
                    out.push(FsAction::CreateDir { path: clone_path(&dir) });
                    proof {
                        lemma_plan_model_push(out0, out@.last());
                        assert(out@ == out0.push(out@.last()));
                        assert(out@.last().model() == (FsActionModel::CreateDir {
                            path: dirdv,
                        }));
                    }
                    let ghost out1 = out@;
                    match &entry.associated_data {
                        Some(a) => {
                            out.push(
                                FsAction::WriteAssociated {
                                    dir: clone_path(&dir),
                                    name: name.clone(),
                                    payload: a.payload.clone(),
                                },
                            );
                            proof {
                                lemma_plan_model_push(out1, out@.last());
                                assert(out@ == out1.push(out@.last()));
                                assert(out@.last().model() == (FsActionModel::WriteAssociated {
                                    dir: dirdv,
                                    name: rm.yy.name,
                                    payload: rm.assoc.unwrap().payload,
                                }));
                            }
                        },
                        None => {},
                    }
                    let ghost out2 = out@;
                    out.push(
                        FsAction::WriteDefinition {
                            dir,
                            name: name.clone(),
                            contents: entry.yy_resource.data.clone(),
                        },
                    );
                    proof {
                        lemma_plan_model_push(out2, out@.last());
                        assert(out@ == out2.push(out@.last()));
                        assert(out@.last().model() == (FsActionModel::WriteDefinition {
                            dir: dirdv,
                            name: rm.yy.name,
                            contents: rm.yy.data,
                        }));
                        assert(rm.yy.name == pre.reserialize_view()[m as int]);
                        assert(dirdv == seq![
                            pre.kind_view().spec_subpath_name(),
                            rm.yy.name,
                        ]);
                        let acts = reserialize_actions(pre.kind_view(), rm);
                        assert(plan_model(out@) =~= plan_model(out0) + acts);
                        assert(plan_model(out@) == seg3 + plan_reserialize(
                            pre.kind_view(),
                            pre.resources_view(),
                            pre.reserialize_view().take(m + 1),
                        ));
                    }
                },
                None => {
                    proof {
                        assert(pre.has_resource(pre.reserialize_view()[m as int]));
                        assert(false);
                    }
                },
            }
            m += 1;
        }
        proof {
            assert(pre.reserialize_view().take(pre.reserialize_view().len() as int)
                =~= pre.reserialize_view());
        }
        self.resources_to_remove = Vec::new();
        self.associated_folders_to_cleanup = Vec::new();
        self.associated_files_to_cleanup = Vec::new();
        self.resources_to_reserialize = Vec::new();
        proof {
            assert(self.reserialize_view() =~= Seq::<Seq<char>>::empty());
            assert(self.cleanup_files_view() =~= Seq::<Seq<char>>::empty());
            assert(self.cleanup_folders_view() =~= Seq::<Seq<char>>::empty());
            assert(self.remove_queue_view() =~= Seq::<Seq<char>>::empty());
            assert(self.resources_view() =~= pre.resources_view());
        }
        out
    }
}

/// Appends each entry of `xs` to `q`, in order, skipping what is already
/// queued.
pub fn queue_merge_absent(q: &mut Vec<String>, xs: &Vec<String>)
    ensures
        final(q).deep_view() == merge_absent(old(q).deep_view(), xs.deep_view()),
{
    let mut i: usize = 0;
    while i < xs.len()
        invariant
            i <= xs.len(),
            q.deep_view() == merge_absent(old(q).deep_view(), xs.deep_view().take(i as int)),
        decreases xs.len() - i,
    {
        proof {
            assert(xs.deep_view().take(i + 1).drop_last() =~= xs.deep_view().take(i as int));
            assert(xs.deep_view().take(i + 1).last() == xs.deep_view()[i as int]);
        }
        queue_push_absent(q, xs[i].clone());
        i += 1;
    }
    proof {
        assert(xs.deep_view().take(xs.deep_view().len() as int) =~= xs.deep_view());
    }
}

} // verus!
