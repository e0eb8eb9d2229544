//! Views of collections, and copies that keep the view.

use vstd::prelude::*;

verus! {

/// The views of the elements of a sequence.
pub open spec fn views<T: View>(items: Seq<T>) -> Seq<T::V> {
    Seq::new(items.len(), |i: int| items[i]@)
}

/// Named values, with the name and the value each taken by its view.
pub open spec fn named_views<T: View>(members: Seq<(String, T)>) -> Seq<(Seq<char>, T::V)> {
    Seq::new(members.len(), |i: int| (members[i].0@, members[i].1@))
}

/// Keys and values, each taken by its view.
pub open spec fn pairs<K: View, T: View>(entries: Seq<(K, T)>) -> Seq<(K::V, T::V)> {
    Seq::new(entries.len(), |i: int| (entries[i].0@, entries[i].1@))
}

/// The view of what may be there.
pub open spec fn seen<T: View>(value: Option<T>) -> Option<T::V> {
    match value {
        Some(v) => Some(v@),
        None => None,
    }
}

/// A value of which there can be a second one with the same view.
pub trait Duplicate: View + Sized {
    fn duplicate(&self) -> (copy: Self)
        ensures
            copy@ == self@,
    ;
}

impl Duplicate for String {
    fn duplicate(&self) -> (copy: Self) {
        self.clone()
    }
}

/// Copies of some values, in order.
pub fn duplicates<T: Duplicate>(items: &[T]) -> (copies: Vec<T>)
    ensures
        views(copies@) == views(items@),
{
    let mut copies: Vec<T> = Vec::new();
    append_duplicates(&mut copies, items);
    assert(views(copies@) =~= views(items@));
    copies
}

/// Puts copies of some values behind those that are there.
pub fn append_duplicates<T: Duplicate>(target: &mut Vec<T>, items: &[T])
    ensures
        views(final(target)@) == views(old(target)@) + views(items@),
{
    let ghost start = target@;
    let mut i: usize = 0;
    while i < items.len()
        invariant
            i <= items@.len(),
            target@.len() == start.len() + i,
            forall|j: int| 0 <= j < start.len() ==> (#[trigger] target@[j]) == start[j],
            forall|j: int|
                start.len() <= j < target@.len() ==> (#[trigger] target@[j])@ == items@[j
                    - start.len()]@,
        decreases items@.len() - i,
    {
        let copy: T = items[i].duplicate();
        target.push(copy);
        i = i + 1;
    }
    assert(views(target@) =~= views(start) + views(items@));
}

/// A copy of what may be there.
pub fn duplicate_option<T: Duplicate>(value: &Option<T>) -> (copy: Option<T>)
    ensures
        seen(copy) == seen(*value),
{
    match value {
        Some(v) => Some(v.duplicate()),
        None => None,
    }
}

} // verus!
