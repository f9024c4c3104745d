//! Paths in the virtual file system, represented as lists of folder-name
//! segments starting at the root. The root itself is the empty path.
//!
//! Representing locations as segment lists keeps the hierarchy acyclic by
//! construction: a folder's descendants are exactly the paths it is a strict
//! prefix of, and no path is a strict prefix of itself.

use vstd::prelude::*;

verus! {

/// An addressable location in the virtual hierarchy: the folder names from
/// the root down. The empty list addresses the root folder.
pub type FolderPath = Vec<String>;

/// Whether `a` is a (possibly equal) prefix of `b`.
pub open spec fn is_prefix_of(a: Seq<Seq<char>>, b: Seq<Seq<char>>) -> bool {
    a.len() <= b.len() && forall|i: int| 0 <= i < a.len() ==> a[i] == b[i]
}

/// The location of the folder containing `p`.
pub open spec fn parent_of(p: Seq<Seq<char>>) -> Seq<Seq<char>>
    recommends
        p.len() > 0,
{
    p.drop_last()
}

/// Compares two paths by contents.
pub fn path_eq(a: &FolderPath, b: &FolderPath) -> (r: bool)
    ensures
        r == (a.deep_view() == b.deep_view()),
{
    if a.len() != b.len() {
        proof {
            assert(a.deep_view().len() != b.deep_view().len());
        }
        return false;
    }
    let mut i: usize = 0;
    while i < a.len()
        invariant
            i <= a.len(),
            a.len() == b.len(),
            forall|j: int| 0 <= j < i ==> a.deep_view()[j] == b.deep_view()[j],
        decreases a.len() - i,
    {
        if !(a[i] == b[i]) {
            proof {
                assert(a.deep_view()[i as int] != b.deep_view()[i as int]);
            }
            return false;
        }
        i += 1;
    }
    proof {
        assert(a.deep_view() =~= b.deep_view());
    }
    true
}

/// Whether `a` is a (possibly equal) prefix of `b`, executably.
pub fn path_is_prefix(a: &FolderPath, b: &FolderPath) -> (r: bool)
    ensures
        r == is_prefix_of(a.deep_view(), b.deep_view()),
{
    if a.len() > b.len() {
        return false;
    }
    let mut i: usize = 0;
    while i < a.len()
        invariant
            i <= a.len(),
            a.len() <= b.len(),
            forall|j: int| 0 <= j < i ==> a.deep_view()[j] == b.deep_view()[j],
        decreases a.len() - i,
    {
        if !(a[i] == b[i]) {
            proof {
                assert(a.deep_view()[i as int] != b.deep_view()[i as int]);
            }
            return false;
        }
        i += 1;
    }
    true
}

/// Copies a path.
pub fn clone_path(p: &FolderPath) -> (r: FolderPath)
    ensures
        r.deep_view() == p.deep_view(),
{
    let r = p.clone();
    proof {
        assert(r.deep_view() =~= p.deep_view());
    }
    r
}

/// The path addressing `name` inside the folder at `p`.
pub fn child_path(p: &FolderPath, name: &String) -> (r: FolderPath)
    ensures
        r.deep_view() == p.deep_view().push(name@),
{
    let mut r = clone_path(p);
    r.push(name.clone());
    proof {
        assert(r.deep_view() =~= p.deep_view().push(name@));
    }
    r
}

/// The location of the folder containing `p`, executably.
pub fn parent_path(p: &FolderPath) -> (r: FolderPath)
    requires
        p.len() > 0,
    ensures
        r.deep_view() == parent_of(p.deep_view()),
{
    let mut r = clone_path(p);
    r.pop();
    proof {
        assert(r.deep_view() =~= parent_of(p.deep_view()));
    }
    r
}

} // verus!
