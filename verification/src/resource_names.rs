//! The global resource-name index: one entry per resource, keyed by name,
//! unique across all resource kinds. The name is the join key between the
//! folder graph, this index, and the per-kind resource handlers.

use crate::paths::{clone_path, FolderPath};
use crate::resources::Resource;
use vstd::prelude::*;

verus! {

/// What the index records about one resource.
pub struct ResourceDescriptor {
    /// The resource's kind.
    pub resource: Resource,
    /// The sibling order index of the resource's file leaf.
    pub order: usize,
    /// The folder the resource sits in.
    pub parent_location: FolderPath,
}

/// The mathematical value of a [`ResourceDescriptor`].
pub ghost struct DescriptorModel {
    pub resource: Resource,
    pub order: int,
    pub parent: Seq<Seq<char>>,
}

impl ResourceDescriptor {
    /// Builds a descriptor.
    pub fn new(resource: Resource, order: usize, parent_location: FolderPath) -> (r:
        ResourceDescriptor)
        ensures
            r.model() == (DescriptorModel {
                resource,
                order: order as int,
                parent: parent_location.deep_view(),
            }),
    {
        ResourceDescriptor { resource, order, parent_location }
    }

    /// The mathematical value of this descriptor.
    pub open spec fn model(self) -> DescriptorModel {
        DescriptorModel {
            resource: self.resource,
            order: self.order as int,
            parent: self.parent_location.deep_view(),
        }
    }

    /// Copies this descriptor.
    pub fn clone_descriptor(&self) -> (r: ResourceDescriptor)
        ensures
            r.model() == self.model(),
    {
        ResourceDescriptor {
            resource: self.resource,
            order: self.order,
            parent_location: clone_path(&self.parent_location),
        }
    }
}

/// The name index itself: a list of (name, descriptor) entries with unique
/// names.
pub struct ResourceNames {
    entries: Vec<(String, ResourceDescriptor)>,
}

/// The mathematical value of a sequence of index entries.
pub open spec fn entries_model(s: Seq<(String, ResourceDescriptor)>) -> Seq<
    (Seq<char>, DescriptorModel),
> {
    s.map_values(|e: (String, ResourceDescriptor)| (e.0@, e.1.model()))
}

/// The first index in `s` whose entry is keyed `name`, if any.
pub open spec fn first_entry_named(
    s: Seq<(Seq<char>, DescriptorModel)>,
    name: Seq<char>,
) -> Option<int>
    decreases s.len(),
{
    if s.len() == 0 {
        None
    } else if s[0].0 == name {
        Some(0)
    } else {
        match first_entry_named(s.skip(1), name) {
            Some(i) => Some(i + 1),
            None => None,
        }
    }
}

/// What `first_entry_named` promises: a match at the returned index and no
/// match before it.
pub proof fn lemma_first_entry_named(s: Seq<(Seq<char>, DescriptorModel)>, name: Seq<char>)
    ensures
        match first_entry_named(s, name) {
            Some(i) => 0 <= i < s.len() && s[i].0 == name && forall|j: int|
                0 <= j < i ==> (#[trigger] s[j]).0 != name,
            None => forall|j: int| 0 <= j < s.len() ==> (#[trigger] s[j]).0 != name,
        },
    decreases s.len(),
{
    if s.len() > 0 && s[0].0 != name {
        lemma_first_entry_named(s.skip(1), name);
        match first_entry_named(s.skip(1), name) {
            Some(i) => {
                assert forall|j: int| 0 <= j < i + 1 implies (#[trigger] s[j]).0 != name by {
                    if j > 0 {
                        assert(s.skip(1)[j - 1] == s[j]);
                    }
                }
            },
            None => {
                assert forall|j: int| 0 <= j < s.len() implies (#[trigger] s[j]).0 != name by {
                    if j > 0 {
                        assert(s.skip(1)[j - 1] == s[j]);
                    }
                }
            },
        }
    }
}

impl ResourceNames {
    /// The entries of the index, in insertion order.
    pub closed spec fn entries_view(&self) -> Seq<(Seq<char>, DescriptorModel)> {
        entries_model(self.entries@)
    }

    /// Whether the index holds an entry named `name`.
    pub open spec fn has_name(&self, name: Seq<char>) -> bool {
        exists|i: int|
            0 <= i < self.entries_view().len() && (#[trigger] self.entries_view()[i]).0 == name
    }

    /// The descriptor recorded under `name`.
    pub open spec fn spec_get(&self, name: Seq<char>) -> DescriptorModel
        recommends
            self.has_name(name),
    {
        match first_entry_named(self.entries_view(), name) {
            Some(i) => self.entries_view()[i].1,
            None => DescriptorModel { resource: Resource::Sprite, order: 0, parent: Seq::empty() },
        }
    }

    /// Names are unique across the whole index, whatever the resource kind.
    pub open spec fn wf(&self) -> bool {
        forall|i: int, j: int|
            0 <= i < self.entries_view().len() && 0 <= j < self.entries_view().len() && i != j
                ==> (#[trigger] self.entries_view()[i]).0 != (
            #[trigger] self.entries_view()[j]).0
    }

    /// An empty index.
    pub fn new() -> (r: ResourceNames)
        ensures
            r.wf(),
            r.entries_view() == Seq::<(Seq<char>, DescriptorModel)>::empty(),
    {
        let r = ResourceNames { entries: Vec::new() };
        proof {
            assert(r.entries_view() =~= Seq::<(Seq<char>, DescriptorModel)>::empty());
        }
        r
    }

    /// The number of resources in the index.
    pub fn len(&self) -> (r: usize)
        ensures
            r == self.entries_view().len(),
    {
        self.entries.len()
    }

    /// The position of the entry named `name`, if any.
    fn find(&self, name: &String) -> (r: Option<usize>)
        ensures
            match r {
                Some(i) => {
                    &&& Some(i as int) == first_entry_named(self.entries_view(), name@)
                    &&& 0 <= i < self.entries_view().len()
                    &&& self.entries_view()[i as int].0 == name@
                },
                None => !self.has_name(name@),
            },
    {
        proof {
            lemma_first_entry_named(self.entries_view(), name@);
        }
        let mut i: usize = 0;
        while i < self.entries.len()
            invariant
                i <= self.entries.len(),
                forall|j: int| 0 <= j < i ==> (#[trigger] self.entries_view()[j]).0 != name@,
            decreases self.entries.len() - i,
        {
            if self.entries[i].0 == *name {
                proof {
                    lemma_first_entry_named(self.entries_view(), name@);
                    assert(self.entries_view()[i as int].0 == name@);
                    match first_entry_named(self.entries_view(), name@) {
                        Some(w) => {
                            assert(w == i as int);
                        },
                        None => {
                            assert(false);
                        },
                    }
                }
                return Some(i);
            }
            i += 1;
        }
        None
    }

    /// Whether a resource named `name` exists anywhere in the project.
    pub fn contains(&self, name: &String) -> (r: bool)
        ensures
            r == self.has_name(name@),
    {
        self.find(name).is_some()
    }

    /// A copy of the descriptor recorded under `name`, if any.
    pub fn get(&self, name: &String) -> (r: Option<ResourceDescriptor>)
        ensures
            match r {
                Some(d) => self.has_name(name@) && d.model() == self.spec_get(name@),
                None => !self.has_name(name@),
            },
    {
        match self.find(name) {
            Some(i) => Some(self.entries[i].1.clone_descriptor()),
            None => None,
        }
    }

    /// Records a new resource. Fails when the name is already taken: names
    /// are globally unique, because they are the cross-structure join key.
    pub fn insert(&mut self, name: String, descriptor: ResourceDescriptor) -> (r: Result<(), ()>)
        requires
            old(self).wf(),
        ensures
            final(self).wf(),
            match r {
                Ok(()) => {
                    &&& !old(self).has_name(name@)
                    &&& final(self).entries_view() == old(self).entries_view().push(
                        (name@, descriptor.model()),
                    )
                },
                Err(()) => old(self).has_name(name@) && *final(self) == *old(self),
            },
    {
        if self.contains(&name) {
            return Err(());
        }
        let ghost pre = *self;
        self.entries.push((name, descriptor));
        proof {
            assert(self.entries_view() =~= pre.entries_view().push(
                (self.entries@.last().0@, self.entries@.last().1.model()),
            ));
        }
        Ok(())
    }

    /// Records a resource during bulk project loading: an upsert that keeps
    /// the index well-formed even on duplicated input, without reporting.
    pub fn load_in_resource(&mut self, name: String, descriptor: ResourceDescriptor)
        requires
            old(self).wf(),
        ensures
            final(self).wf(),
            !old(self).has_name(name@) ==> final(self).entries_view() == old(
                self,
            ).entries_view().push((name@, descriptor.model())),
            old(self).has_name(name@) ==> final(self).entries_view() == old(
                self,
            ).entries_view().update(
                first_entry_named(old(self).entries_view(), name@).unwrap(),
                (name@, descriptor.model()),
            ),
    {
        let ghost pre = *self;
        match self.find(&name) {
            None => {
                self.entries.push((name, descriptor));
                proof {
                    assert(self.entries_view() =~= pre.entries_view().push(
                        (self.entries@.last().0@, self.entries@.last().1.model()),
                    ));
                }
            },
            Some(i) => {
                let ghost gi = i as int;
                self.entries.remove(i);
                self.entries.insert(i, (name, descriptor));
                proof {
                    assert(self.entries_view() =~= pre.entries_view().update(
                        gi,
                        (self.entries@[gi].0@, self.entries@[gi].1.model()),
                    ));
                    assert forall|a: int, b: int|
                        0 <= a < self.entries_view().len() && 0 <= b < self.entries_view().len()
                            && a != b implies (#[trigger] self.entries_view()[a]).0 != (
                    #[trigger] self.entries_view()[b]).0 by {
                        if a != gi && b != gi {
                            assert(self.entries_view()[a] == pre.entries_view()[a]);
                            assert(self.entries_view()[b] == pre.entries_view()[b]);
                        } else if a == gi {
                            assert(self.entries_view()[b] == pre.entries_view()[b]);
                            assert(pre.entries_view()[gi].0 == self.entries_view()[a].0);
                        } else {
                            assert(self.entries_view()[a] == pre.entries_view()[a]);
                            assert(pre.entries_view()[gi].0 == self.entries_view()[b].0);
                        }
                    }
                }
            },
        }
    }

    /// Forgets the resource named `name` and returns its descriptor.
    pub fn remove(&mut self, name: &String) -> (r: Option<ResourceDescriptor>)
        requires
            old(self).wf(),
        ensures
            final(self).wf(),
            match r {
                Some(d) => {
                    &&& old(self).has_name(name@)
                    &&& d.model() == old(self).spec_get(name@)
                    &&& final(self).entries_view() == old(self).entries_view().remove(
                        first_entry_named(old(self).entries_view(), name@).unwrap(),
                    )
                },
                None => !old(self).has_name(name@) && *final(self) == *old(self),
            },
    {
        match self.find(name) {
            None => None,
            Some(i) => {
                let ghost pre = *self;
                let entry = self.entries.remove(i);
                proof {
                    assert(self.entries_view() =~= pre.entries_view().remove(i as int));
                    assert forall|a: int, b: int|
                        0 <= a < self.entries_view().len() && 0 <= b < self.entries_view().len()
                            && a != b implies (#[trigger] self.entries_view()[a]).0 != (
                    #[trigger] self.entries_view()[b]).0 by {
                        let wa: int = if a < i as int {
                            a
                        } else {
                            a + 1
                        };
                        let wb: int = if b < i as int {
                            b
                        } else {
                            b + 1
                        };
                        assert(self.entries_view()[a] == pre.entries_view()[wa]);
                        assert(self.entries_view()[b] == pre.entries_view()[wb]);
                    }
                }
                Some(entry.1)
            },
        }
    }
}

} // verus!
