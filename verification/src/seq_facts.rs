//! Small general facts about sequences: filtering, and lookup in sequences
//! of key/value pairs.

use vstd::prelude::*;

verus! {

/// The first index in `s` whose entry is keyed `name`, if any.
pub open spec fn first_keyed<V>(s: Seq<(Seq<char>, V)>, name: Seq<char>) -> Option<int>
    decreases s.len(),
{
    if s.len() == 0 {
        None
    } else if s[0].0 == name {
        Some(0)
    } else {
        match first_keyed(s.skip(1), name) {
            Some(i) => Some(i + 1),
            None => None,
        }
    }
}

/// What `first_keyed` promises: a match at the returned index and no match
/// before it.
pub proof fn lemma_first_keyed<V>(s: Seq<(Seq<char>, V)>, name: Seq<char>)
    ensures
        match first_keyed(s, name) {
            Some(i) => 0 <= i < s.len() && s[i].0 == name && forall|j: int|
                0 <= j < i ==> (#[trigger] s[j]).0 != name,
            None => forall|j: int| 0 <= j < s.len() ==> (#[trigger] s[j]).0 != name,
        },
    decreases s.len(),
{
    if s.len() > 0 && s[0].0 != name {
        lemma_first_keyed(s.skip(1), name);
        match first_keyed(s.skip(1), name) {
            Some(i) => {
                assert forall|j: int| 0 <= j < i + 1 implies (#[trigger] s[j]).0 != name by {
                    if j > 0 {
                        assert(s.skip(1)[j - 1] == s[j]);
                    }
                }
            },
            None => {
                assert forall|j: int| 0 <= j < s.len() implies (#[trigger] s[j]).0 != name by {
                    if j > 0 {
                        assert(s.skip(1)[j - 1] == s[j]);
                    }
                }
            },
        }
    }
}

/// Two complementary filters split a sequence: their lengths add up to the
/// whole.
pub proof fn lemma_filter_split<A>(s: Seq<A>, p1: spec_fn(A) -> bool, p2: spec_fn(A) -> bool)
    requires
        forall|a: A| #[trigger] p1(a) == !p2(a),
    ensures
        s.filter(p1).len() + s.filter(p2).len() == s.len(),
    decreases s.len(),
{
    reveal(Seq::filter);
    if s.len() > 0 {
        lemma_filter_split(s.drop_last(), p1, p2);
    }
}

/// Filtering a sequence extended by one element extends the filtered
/// sequence by that element exactly when it satisfies the predicate.
pub proof fn lemma_filter_push<A>(s: Seq<A>, pred: spec_fn(A) -> bool, x: A)
    ensures
        pred(x) ==> s.push(x).filter(pred) == s.filter(pred).push(x),
        !pred(x) ==> s.push(x).filter(pred) == s.filter(pred),
{
    reveal(Seq::filter);
    assert(s.push(x).drop_last() =~= s);
    assert(s.push(x).last() == x);
}

/// Every element of a filtered sequence occurs in the original.
pub proof fn lemma_filter_origin<A>(s: Seq<A>, pred: spec_fn(A) -> bool)
    ensures
        forall|i: int|
            0 <= i < s.filter(pred).len() ==> s.contains(#[trigger] s.filter(pred)[i]),
    decreases s.len(),
{
    reveal(Seq::filter);
    if s.len() > 0 {
        let t = s.drop_last();
        lemma_filter_origin(t, pred);
        assert forall|i: int| 0 <= i < s.filter(pred).len() implies s.contains(
            #[trigger] s.filter(pred)[i],
        ) by {
            if pred(s.last()) && i == s.filter(pred).len() - 1 {
                assert(s.filter(pred)[i] == s.last());
                assert(s[s.len() - 1] == s.last());
            } else {
                assert(s.filter(pred)[i] == t.filter(pred)[i]);
                assert(t.contains(t.filter(pred)[i]));
                let w = choose|w: int| 0 <= w < t.len() && t[w] == t.filter(pred)[i];
                assert(s[w] == t.filter(pred)[i]);
            }
        }
    }
}

/// A pairwise property of the elements of a sequence survives filtering:
/// if no two elements at distinct positions conflict, no two elements of the
/// filtered sequence at distinct positions conflict either.
pub proof fn lemma_filter_pairwise<A>(s: Seq<A>, pred: spec_fn(A) -> bool, bad: spec_fn(A, A) -> bool)
    requires
        forall|i: int, j: int|
            #![trigger s[i], s[j]]
            0 <= i < s.len() && 0 <= j < s.len() && i != j ==> !bad(s[i], s[j]),
    ensures
        forall|i: int, j: int|
            #![trigger s.filter(pred)[i], s.filter(pred)[j]]
            0 <= i < s.filter(pred).len() && 0 <= j < s.filter(pred).len() && i != j
                ==> !bad(s.filter(pred)[i], s.filter(pred)[j]),
    decreases s.len(),
{
    reveal(Seq::filter);
    if s.len() > 0 {
        let t = s.drop_last();
        assert(forall|i: int| 0 <= i < t.len() ==> t[i] == s[i]);
        lemma_filter_pairwise(t, pred, bad);
        lemma_filter_origin(t, pred);
        let f = s.filter(pred);
        assert forall|i: int, j: int|
            0 <= i < f.len() && 0 <= j < f.len() && i != j implies !#[trigger] bad(
            f[i],
            f[j],
        ) by {
            let tf = t.filter(pred);
            if pred(s.last()) {
                assert(f == tf.push(s.last()));
                if i < f.len() - 1 && j < f.len() - 1 {
                    assert(f[i] == tf[i] && f[j] == tf[j]);
                } else if i == f.len() - 1 {
                    assert(f[j] == tf[j]);
                    let w = choose|w: int| 0 <= w < t.len() && t[w] == tf[j];
                    assert(!bad(s[s.len() - 1], s[w]));
                } else {
                    assert(f[i] == tf[i]);
                    let w = choose|w: int| 0 <= w < t.len() && t[w] == tf[i];
                    assert(!bad(s[w], s[s.len() - 1]));
                }
            } else {
                assert(f == tf);
            }
        }
    }
}

} // verus!
