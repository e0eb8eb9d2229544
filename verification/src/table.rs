//! A table of entries under distinct keys that drops what is old.
//!
//! The entry that was put in last stands last. Where several entries are equally
//! old, the first of them is the oldest.

use crate::model;
use crate::model::Duplicate;
use crate::text;
use vstd::prelude::*;

verus! {

/// What an entry can stand under.
pub trait Key: Duplicate {
    /// The session that the key belongs to.
    spec fn session(key: Self::V) -> Seq<char>;

    /// Whether two keys are the same.
    fn same(&self, other: &Self) -> (answer: bool)
        ensures
            answer == (self@ == other@),
    ;

    /// The session that the key belongs to.
    fn session_of(&self) -> (session: &String)
        ensures
            session@ == Self::session(self@),
    ;
}

/// What a table holds under keys of type `K`.
pub trait Stored<K: View>: View + Sized {
    /// When the entry was last used.
    spec fn stamp(value: Self::V) -> u64;

    /// How much of the table's allowance the entry takes.
    spec fn weight(key: K::V, value: Self::V) -> nat;

    /// When the entry was last used.
    fn stamp_of(&self) -> (stamp: u64)
        ensures
            stamp == Self::stamp(self@),
    ;

    /// How much of the table's allowance the entry takes, as far as that can be
    /// counted.
    fn weight_of(key: &K, value: &Self) -> (weight: usize)
        ensures
            weight == capped(Self::weight(key@, value@)),
    ;
}

/// A number, or the largest machine number where it is larger than that.
pub open spec fn capped(n: nat) -> usize {
    if n > usize::MAX {
        usize::MAX
    } else {
        n as usize
    }
}

/// The number after a number. It starts again at zero after the largest.
pub open spec fn following(n: u64) -> u64 {
    if n == u64::MAX {
        0
    } else {
        (n + 1) as u64
    }
}

/// Whether no key stands twice.
pub open spec fn distinct<K, V>(entries: Seq<(K, V)>) -> bool {
    forall|i: int, j: int|
        0 <= i < j < entries.len() ==> (#[trigger] entries[i]).0 != (#[trigger] entries[j]).0
}

/// What stands under a key.
pub open spec fn lookup<K, V>(entries: Seq<(K, V)>, key: K) -> Option<V>
    decreases entries.len(),
{
    if entries.len() == 0 {
        None
    } else if entries.last().0 == key {
        Some(entries.last().1)
    } else {
        lookup(entries.drop_last(), key)
    }
}

/// The entries but for those under a key.
pub open spec fn without<K, V>(entries: Seq<(K, V)>, key: K) -> Seq<(K, V)>
    decreases entries.len(),
{
    if entries.len() == 0 {
        entries
    } else if entries.last().0 == key {
        without(entries.drop_last(), key)
    } else {
        without(entries.drop_last(), key).push(entries.last())
    }
}

/// The entries with one put in last, in place of what stood under its key.
pub open spec fn with<K, V>(entries: Seq<(K, V)>, key: K, value: V) -> Seq<(K, V)> {
    without(entries, key).push((key, value))
}

/// The time from `stamp` to `now`, or zero where `stamp` is later.
pub open spec fn age(now: u64, stamp: u64) -> u64 {
    if now >= stamp {
        (now - stamp) as u64
    } else {
        0
    }
}

/// The entries that were used within the last `limit` units of time.
pub open spec fn fresh<K: View, T: Stored<K>>(
    entries: Seq<(K::V, T::V)>,
    now: u64,
    limit: u64,
) -> Seq<(K::V, T::V)>
    decreases entries.len(),
{
    if entries.len() == 0 {
        entries
    } else {
        let rest = fresh::<K, T>(entries.drop_last(), now, limit);
        if age(now, T::stamp(entries.last().1)) <= limit {
            rest.push(entries.last())
        } else {
            rest
        }
    }
}

/// The entries that belong to other sessions.
pub open spec fn outside_session<K: Key, V>(entries: Seq<(K::V, V)>, session: Seq<char>) -> Seq<
    (K::V, V),
>
    decreases entries.len(),
{
    if entries.len() == 0 {
        entries
    } else {
        let rest = outside_session::<K, V>(entries.drop_last(), session);
        if K::session(entries.last().0) != session {
            rest.push(entries.last())
        } else {
            rest
        }
    }
}

/// Where the first of the entries with the least stamp stands.
pub open spec fn oldest<K: View, T: Stored<K>>(entries: Seq<(K::V, T::V)>) -> int
    decreases entries.len(),
{
    if entries.len() <= 1 {
        0
    } else {
        let i = oldest::<K, T>(entries.drop_last());
        if T::stamp(entries.last().1) < T::stamp(entries[i].1) {
            entries.len() - 1
        } else {
            i
        }
    }
}

/// How much the entries weigh together.
pub open spec fn total<K: View, T: Stored<K>>(entries: Seq<(K::V, T::V)>) -> nat
    decreases entries.len(),
{
    if entries.len() == 0 {
        0
    } else {
        total::<K, T>(entries.drop_last()) + T::weight(entries.last().0, entries.last().1)
    }
}

/// The entries after the oldest have gone, one after the other, until no more
/// than `max_len` are left and they weigh no more than `max_total`.
pub open spec fn evicted<K: View, T: Stored<K>>(
    entries: Seq<(K::V, T::V)>,
    max_len: nat,
    max_total: nat,
) -> Seq<(K::V, T::V)>
    decreases entries.len(),
{
    if entries.len() == 0 || (entries.len() <= max_len && total::<K, T>(entries) <= max_total) {
        entries
    } else {
        proof {
            lemma_oldest::<K, T>(entries);
        }
        evicted::<K, T>(entries.remove(oldest::<K, T>(entries)), max_len, max_total)
    }
}

// ---------------------------------------------------------------------------
// The table
// ---------------------------------------------------------------------------

/// Entries under distinct keys.
pub struct Table<K, T> {
    entries: Vec<(K, T)>,
}

impl<K: View, T: View> View for Table<K, T> {
    type V = Seq<(K::V, T::V)>;

    closed spec fn view(&self) -> Seq<(K::V, T::V)> {
        model::pairs(self.entries@)
    }
}

impl<K: Key, T: Stored<K>> Table<K, T> {
    /// A table without entries.
    pub fn new() -> (table: Self)
        ensures
            table@ == Seq::<(K::V, T::V)>::empty(),
    {
        let table: Self = Table { entries: Vec::new() };
        assert(table@ =~= Seq::<(K::V, T::V)>::empty());
        table
    }

    /// How many entries there are.
    pub fn len(&self) -> (n: usize)
        ensures
            n == self@.len(),
    {
        self.entries.len()
    }

    /// Where the entry under a key stands.
    fn find(&self, key: &K) -> (found: Option<usize>)
        ensures
            match found {
                Some(i) => i < self@.len() && self@[i as int].0 == key@,
                None => forall|i: int| 0 <= i < self@.len() ==> (#[trigger] self@[i]).0 != key@,
            },
    {
        let mut i: usize = 0;
        while i < self.entries.len()
            invariant
                i <= self.entries@.len(),
                self@ == model::pairs(self.entries@),
                forall|j: int| 0 <= j < i ==> (#[trigger] self@[j]).0 != key@,
            decreases self.entries@.len() - i,
        {
            if self.entries[i].0.same(key) {
                return Some(i);
            }
            i = i + 1;
        }
        None
    }

    /// What stands under a key.
    pub fn get(&self, key: &K) -> (found: Option<&T>)
        requires
            distinct(self@),
        ensures
            model::seen(found) == lookup(self@, key@),
    {
        match self.find(key) {
            Some(i) => {
                proof {
                    lemma_lookup(self@, i as int);
                }
                Some(&self.entries[i].1)
            },
            None => {
                proof {
                    lemma_absent(self@, key@);
                }
                None
            },
        }
    }

    /// Takes what stands under a key out of the table.
    pub fn take(&mut self, key: &K) -> (taken: Option<T>)
        requires
            distinct(old(self)@),
        ensures
            final(self)@ == without(old(self)@, key@),
            distinct(final(self)@),
            match taken {
                Some(value) => lookup(old(self)@, key@) == Some(value@),
                None => lookup(old(self)@, key@) is None,
            },
    {
        match self.find(key) {
            Some(i) => {
                proof {
                    lemma_lookup(self@, i as int);
                    lemma_without(self@, i as int);
                }
                let entry: (K, T) = self.entries.remove(i);
                assert(self@ =~= old(self)@.remove(i as int));
                Some(entry.1)
            },
            None => {
                proof {
                    lemma_absent(self@, key@);
                }
                None
            },
        }
    }

    /// Puts an entry in last, in place of what stood under its key.
    pub fn put(&mut self, key: K, value: T)
        requires
            distinct(old(self)@),
        ensures
            final(self)@ == with(old(self)@, key@, value@),
            distinct(final(self)@),
    {
        let _ = self.take(&key);
        let ghost rest = self@;
        proof {
            lemma_without_lacks(old(self)@, key@);
        }
        self.entries.push((key, value));
        assert(self@ =~= rest.push((key@, value@)));
    }

    /// Drops the entries that were not used within the last `limit` units of
    /// time.
    pub fn keep_fresh(&mut self, now: u64, limit: u64)
        requires
            distinct(old(self)@),
        ensures
            final(self)@ == fresh::<K, T>(old(self)@, now, limit),
            distinct(final(self)@),
    {
        let ghost before = self@;
        let mut entries: Vec<(K, T)> = Vec::new();
        std::mem::swap(&mut self.entries, &mut entries);
        let ghost all = entries@;
        assert(before =~= model::pairs(all));
        let mut kept: Vec<(K, T)> = Vec::new();
        assert(model::pairs(kept@) =~= fresh::<K, T>(before.take(0), now, limit));
        for entry in it: entries.into_iter()
            invariant
                it.seq() == all,
                before == model::pairs(all),
                model::pairs(kept@) == fresh::<K, T>(before.take(it.index() as int), now, limit),
        {
            let ghost sofar = model::pairs(kept@);
            proof {
                let taken = before.take(it.index() + 1);
                assert(taken.drop_last() =~= before.take(it.index() as int));
                assert(taken.last() == (entry.0@, entry.1@));
            }
            if now.saturating_sub(entry.1.stamp_of()) <= limit {
                let ghost placed = (entry.0@, entry.1@);
                kept.push(entry);
                assert(model::pairs(kept@) =~= sofar.push(placed));
            }
        }
        self.entries = kept;
        proof {
            assert(before.take(before.len() as int) =~= before);
            lemma_fresh::<K, T>(before, now, limit);
        }
    }

    /// Drops the entries that belong to a session.
    pub fn drop_session(&mut self, session: &str)
        requires
            distinct(old(self)@),
        ensures
            final(self)@ == outside_session::<K, T::V>(old(self)@, session@),
            distinct(final(self)@),
    {
        let ghost before = self@;
        let mut entries: Vec<(K, T)> = Vec::new();
        std::mem::swap(&mut self.entries, &mut entries);
        let ghost all = entries@;
        assert(before =~= model::pairs(all));
        let mut kept: Vec<(K, T)> = Vec::new();
        assert(model::pairs(kept@) =~= outside_session::<K, T::V>(before.take(0), session@));
        for entry in it: entries.into_iter()
            invariant
                it.seq() == all,
                before == model::pairs(all),
                model::pairs(kept@) == outside_session::<K, T::V>(
                    before.take(it.index() as int),
                    session@,
                ),
        {
            let ghost sofar = model::pairs(kept@);
            proof {
                let taken = before.take(it.index() + 1);
                assert(taken.drop_last() =~= before.take(it.index() as int));
                assert(taken.last() == (entry.0@, entry.1@));
            }
            if !text::same_text(entry.0.session_of().as_str(), session) {
                let ghost placed = (entry.0@, entry.1@);
                kept.push(entry);
                assert(model::pairs(kept@) =~= sofar.push(placed));
            }
        }
        self.entries = kept;
        proof {
            assert(before.take(before.len() as int) =~= before);
            lemma_outside_session::<K, T::V>(before, session@);
        }
    }

    /// How much the entries weigh together, as far as that can be counted.
    pub fn total_weight(&self) -> (weight: usize)
        ensures
            weight == capped(total::<K, T>(self@)),
    {
        let mut weight: usize = 0;
        let mut i: usize = 0;
        assert(self@.take(0) =~= Seq::<(K::V, T::V)>::empty());
        while i < self.entries.len()
            invariant
                i <= self.entries@.len(),
                self@ == model::pairs(self.entries@),
                weight == capped(total::<K, T>(self@.take(i as int))),
            decreases self.entries@.len() - i,
        {
            let more: usize = T::weight_of(&self.entries[i].0, &self.entries[i].1);
            proof {
                let taken = self@.take(i + 1);
                assert(taken.drop_last() =~= self@.take(i as int));
                assert(taken.last() == self@[i as int]);
            }
            weight = weight.saturating_add(more);
            i = i + 1;
        }
        assert(self@.take(self@.len() as int) =~= self@);
        weight
    }

    /// Takes the oldest entry out of the table.
    pub fn take_oldest(&mut self) -> (taken: Option<T>)
        requires
            distinct(old(self)@),
        ensures
            distinct(final(self)@),
            match taken {
                Some(value) => {
                    &&& old(self)@.len() > 0
                    &&& 0 <= oldest::<K, T>(old(self)@) < old(self)@.len()
                    &&& value@ == old(self)@[oldest::<K, T>(old(self)@)].1
                    &&& final(self)@ == old(self)@.remove(oldest::<K, T>(old(self)@))
                },
                None => old(self)@.len() == 0 && final(self)@ == old(self)@,
            },
    {
        if self.entries.len() == 0 {
            return None;
        }
        let mut at: usize = 0;
        let mut i: usize = 1;
        while i < self.entries.len()
            invariant
                at < i <= self.entries@.len(),
                self@ == model::pairs(self.entries@),
                at == oldest::<K, T>(self@.take(i as int)),
            decreases self.entries@.len() - i,
        {
            proof {
                let taken = self@.take(i + 1);
                assert(taken.drop_last() =~= self@.take(i as int));
                assert(taken.last() == self@[i as int]);
                assert(taken[at as int] == self@[at as int]);
            }
            if self.entries[i].1.stamp_of() < self.entries[at].1.stamp_of() {
                at = i;
            }
            i = i + 1;
        }
        proof {
            assert(self@.take(self@.len() as int) =~= self@);
            lemma_oldest::<K, T>(self@);
        }
        let entry: (K, T) = self.entries.remove(at);
        assert(self@ =~= old(self)@.remove(at as int));
        Some(entry.1)
    }

    /// Drops the oldest entries, one after the other, until no more than
    /// `max_len` are left and they weigh no more than `max_total`.
    pub fn evict(&mut self, max_len: usize, max_total: usize)
        requires
            distinct(old(self)@),
            max_total < usize::MAX,
        ensures
            final(self)@ == evicted::<K, T>(old(self)@, max_len as nat, max_total as nat),
            distinct(final(self)@),
    {
        while self.len() > max_len || self.total_weight() > max_total
            invariant
                distinct(self@),
                max_total < usize::MAX,
                evicted::<K, T>(old(self)@, max_len as nat, max_total as nat) == evicted::<K, T>(
                    self@,
                    max_len as nat,
                    max_total as nat,
                ),
            decreases self@.len(),
        {
            let _ = self.take_oldest();
        }
    }
}

// ---------------------------------------------------------------------------
// What holds of the entries
// ---------------------------------------------------------------------------

proof fn lemma_lookup<K, V>(entries: Seq<(K, V)>, i: int)
    requires
        distinct(entries),
        0 <= i < entries.len(),
    ensures
        lookup(entries, entries[i].0) == Some(entries[i].1),
    decreases entries.len(),
{
    if i < entries.len() - 1 {
        lemma_lookup(entries.drop_last(), i);
    }
}

proof fn lemma_absent<K, V>(entries: Seq<(K, V)>, key: K)
    requires
        forall|i: int| 0 <= i < entries.len() ==> (#[trigger] entries[i]).0 != key,
    ensures
        lookup(entries, key) is None,
        without(entries, key) == entries,
    decreases entries.len(),
{
    if entries.len() > 0 {
        assert(entries[entries.len() - 1].0 != key);
        lemma_absent(entries.drop_last(), key);
        assert(entries.drop_last().push(entries.last()) =~= entries);
    }
}

proof fn lemma_without<K, V>(entries: Seq<(K, V)>, i: int)
    requires
        distinct(entries),
        0 <= i < entries.len(),
    ensures
        without(entries, entries[i].0) == entries.remove(i),
    decreases entries.len(),
{
    let shorter = entries.drop_last();
    if i < entries.len() - 1 {
        lemma_without(shorter, i);
        assert(shorter.remove(i).push(entries.last()) =~= entries.remove(i));
    } else {
        lemma_absent(shorter, entries[i].0);
        assert(entries.remove(i) =~= shorter);
    }
}

proof fn lemma_without_lacks<K, V>(entries: Seq<(K, V)>, key: K)
    ensures
        forall|i: int|
            0 <= i < without(entries, key).len() ==> (#[trigger] without(entries, key)[i]).0
                != key,
    decreases entries.len(),
{
    if entries.len() > 0 {
        let rest = without(entries.drop_last(), key);
        lemma_without_lacks(entries.drop_last(), key);
        assert forall|i: int| 0 <= i < without(entries, key).len() implies (
        #[trigger] without(entries, key)[i]).0 != key by {
            if i < rest.len() {
                assert(rest[i].0 != key);
            }
        }
    }
}

/// The oldest entry stands in the table, and none was used before it.
pub proof fn lemma_oldest<K: View, T: Stored<K>>(entries: Seq<(K::V, T::V)>)
    requires
        entries.len() > 0,
    ensures
        0 <= oldest::<K, T>(entries) < entries.len(),
        forall|i: int|
            0 <= i < entries.len() ==> T::stamp(entries[oldest::<K, T>(entries)].1) <= T::stamp(
                (#[trigger] entries[i]).1,
            ),
    decreases entries.len(),
{
    if entries.len() > 1 {
        let shorter = entries.drop_last();
        lemma_oldest::<K, T>(shorter);
        assert forall|i: int| 0 <= i < entries.len() implies T::stamp(
            entries[oldest::<K, T>(entries)].1,
        ) <= T::stamp((#[trigger] entries[i]).1) by {
            if i < shorter.len() {
                assert(shorter[i] == entries[i]);
            }
        }
    }
}

/// Every entry of `part` stands in `whole`, and a key that stands once in
/// `whole` stands once in `part`.
pub open spec fn part_of<K, V>(part: Seq<(K, V)>, whole: Seq<(K, V)>) -> bool {
    &&& forall|i: int| 0 <= i < part.len() ==> whole.contains(#[trigger] part[i])
    &&& distinct(whole) ==> distinct(part)
}

/// What is fresh is a part of the entries.
pub proof fn lemma_fresh<K: View, T: Stored<K>>(entries: Seq<(K::V, T::V)>, now: u64, limit: u64)
    ensures
        part_of(fresh::<K, T>(entries, now, limit), entries),
    decreases entries.len(),
{
    if entries.len() > 0 {
        let shorter = entries.drop_last();
        let rest = fresh::<K, T>(shorter, now, limit);
        lemma_fresh::<K, T>(shorter, now, limit);
        lemma_part_step(rest, shorter, entries.last());
        assert(shorter.push(entries.last()) =~= entries);
    }
}

/// What belongs to other sessions is a part of the entries.
pub proof fn lemma_outside_session<K: Key, V>(entries: Seq<(K::V, V)>, session: Seq<char>)
    ensures
        part_of(outside_session::<K, V>(entries, session), entries),
    decreases entries.len(),
{
    if entries.len() > 0 {
        let shorter = entries.drop_last();
        let rest = outside_session::<K, V>(shorter, session);
        lemma_outside_session::<K, V>(shorter, session);
        lemma_part_step(rest, shorter, entries.last());
        assert(shorter.push(entries.last()) =~= entries);
    }
}

proof fn lemma_part_step<K, V>(part: Seq<(K, V)>, whole: Seq<(K, V)>, entry: (K, V))
    requires
        part_of(part, whole),
    ensures
        part_of(part, whole.push(entry)),
        part_of(part.push(entry), whole.push(entry)),
{
    let longer = whole.push(entry);
    let more = part.push(entry);
    if distinct(longer) {
        assert forall|i: int, j: int| 0 <= i < j < whole.len() implies (#[trigger] whole[i]).0 != (
        #[trigger] whole[j]).0 by {
            assert(longer[i].0 != longer[j].0);
        }
    }
    assert forall|i: int| 0 <= i < part.len() implies longer.contains(#[trigger] part[i]) by {
        let k = choose|k: int| 0 <= k < whole.len() && whole[k] == part[i];
        assert(longer[k] == part[i]);
    }
    assert forall|i: int| 0 <= i < more.len() implies longer.contains(#[trigger] more[i]) by {
        if i < part.len() {
            assert(more[i] == part[i]);
        } else {
            assert(longer[whole.len() as int] == entry);
        }
    }
    if distinct(longer) {
        assert forall|i: int, j: int| 0 <= i < j < more.len() implies (#[trigger] more[i]).0 != (
        #[trigger] more[j]).0 by {
            if j == part.len() {
                assert(part[i] == more[i]);
                let k = choose|k: int| 0 <= k < whole.len() && whole[k] == part[i];
                assert(longer[k].0 != longer[whole.len() as int].0);
            } else {
                assert(part[i] == more[i] && part[j] == more[j]);
            }
        }
    }
}

/// An entry that leaves takes its weight with it.
pub proof fn lemma_total_remove<K: View, T: Stored<K>>(entries: Seq<(K::V, T::V)>, i: int)
    requires
        0 <= i < entries.len(),
    ensures
        total::<K, T>(entries) == total::<K, T>(entries.remove(i)) + T::weight(
            entries[i].0,
            entries[i].1,
        ),
    decreases entries.len(),
{
    let shorter = entries.drop_last();
    if i < entries.len() - 1 {
        lemma_total_remove::<K, T>(shorter, i);
        assert(entries.remove(i).drop_last() =~= shorter.remove(i));
    } else {
        assert(entries.remove(i) =~= shorter);
    }
}

/// What is taken out from under a key takes its weight with it.
pub proof fn lemma_total_without<K: View, T: Stored<K>>(entries: Seq<(K::V, T::V)>, key: K::V)
    requires
        distinct(entries),
    ensures
        total::<K, T>(entries) == total::<K, T>(without(entries, key)) + match lookup(
            entries,
            key,
        ) {
            Some(value) => T::weight(key, value),
            None => 0,
        },
        part_of(without(entries, key), entries),
{
    if exists|i: int| 0 <= i < entries.len() && (#[trigger] entries[i]).0 == key {
        let i = choose|i: int| 0 <= i < entries.len() && (#[trigger] entries[i]).0 == key;
        lemma_lookup(entries, i);
        lemma_without(entries, i);
        lemma_total_remove::<K, T>(entries, i);
        lemma_remove_is_part(entries, i);
    } else {
        lemma_absent(entries, key);
        assert forall|i: int| 0 <= i < entries.len() implies entries.contains(
            #[trigger] entries[i],
        ) by {}
    }
}

/// One more entry brings its weight with it.
pub proof fn lemma_total_push<K: View, T: Stored<K>>(
    entries: Seq<(K::V, T::V)>,
    entry: (K::V, T::V),
)
    ensures
        total::<K, T>(entries.push(entry)) == total::<K, T>(entries) + T::weight(
            entry.0,
            entry.1,
        ),
{
    assert(entries.push(entry).drop_last() =~= entries);
}

/// What stands under a key is one of the entries.
pub proof fn lemma_found<K, V>(entries: Seq<(K, V)>, key: K)
    requires
        lookup(entries, key) is Some,
    ensures
        entries.contains((key, lookup(entries, key)->0)),
    decreases entries.len(),
{
    if entries.last().0 == key {
        assert(entries[entries.len() - 1] == (key, lookup(entries, key)->0));
    } else {
        lemma_found(entries.drop_last(), key);
        let i = choose|i: int|
            0 <= i < entries.len() - 1 && entries.drop_last()[i] == (key, lookup(entries, key)->0);
        assert(entries[i] == (key, lookup(entries, key)->0));
    }
}

/// Taking out adds nothing.
pub proof fn lemma_without_len<K, V>(entries: Seq<(K, V)>, key: K)
    ensures
        without(entries, key).len() <= entries.len(),
    decreases entries.len(),
{
    if entries.len() > 0 {
        lemma_without_len(entries.drop_last(), key);
    }
}

/// Keys stay distinct when an entry is put in.
pub proof fn with_keeps_keys_distinct<K, V>(entries: Seq<(K, V)>, key: K, value: V)
    requires
        distinct(entries),
    ensures
        distinct(with(entries, key, value)),
{
    lemma_without_lacks(entries, key);
    if exists|i: int| 0 <= i < entries.len() && (#[trigger] entries[i]).0 == key {
        let i = choose|i: int| 0 <= i < entries.len() && (#[trigger] entries[i]).0 == key;
        lemma_without(entries, i);
    } else {
        lemma_absent(entries, key);
    }
}

/// Taking out what is there leaves one entry less.
pub proof fn lemma_without_found_len<K, V>(entries: Seq<(K, V)>, key: K)
    requires
        distinct(entries),
        lookup(entries, key) is Some,
    ensures
        without(entries, key).len() == entries.len() - 1,
{
    lemma_found(entries, key);
    let i = choose|i: int|
        0 <= i < entries.len() && entries[i] == (key, lookup(entries, key)->0);
    lemma_without(entries, i);
}

/// What has been taken out cannot be taken out again.
pub proof fn lemma_without_twice<K, V>(entries: Seq<(K, V)>, key: K)
    ensures
        without(without(entries, key), key) == without(entries, key),
{
    lemma_without_lacks(entries, key);
    lemma_absent(without(entries, key), key);
}

/// What is taken out is gone, and nothing else is.
pub proof fn taking_out_touches_one_key<K, V>(entries: Seq<(K, V)>, key: K, other: K)
    ensures
        lookup(without(entries, key), key) is None,
        other != key ==> lookup(without(entries, key), other) == lookup(entries, other),
    decreases entries.len(),
{
    if entries.len() > 0 {
        taking_out_touches_one_key(entries.drop_last(), key, other);
        let rest = without(entries.drop_last(), key);
        assert(rest.push(entries.last()).drop_last() =~= rest);
    }
}

/// What is put in is found, and nothing else changes.
pub proof fn putting_in_touches_one_key<K, V>(entries: Seq<(K, V)>, key: K, value: V, other: K)
    ensures
        lookup(with(entries, key, value), key) == Some(value),
        other != key ==> lookup(with(entries, key, value), other) == lookup(entries, other),
{
    taking_out_touches_one_key(entries, key, other);
    assert(with(entries, key, value).drop_last() =~= without(entries, key));
}

/// A part of the entries, with distinct keys, holds under a key what the whole
/// holds under it, or nothing.
pub proof fn part_holds_no_more<K, V>(part: Seq<(K, V)>, whole: Seq<(K, V)>, key: K)
    requires
        part_of(part, whole),
        distinct(whole),
    ensures
        lookup(part, key) is None || lookup(part, key) == lookup(whole, key),
{
    if exists|i: int| 0 <= i < part.len() && (#[trigger] part[i]).0 == key {
        let i = choose|i: int| 0 <= i < part.len() && (#[trigger] part[i]).0 == key;
        lemma_lookup(part, i);
        assert(whole.contains(part[i]));
        let k = choose|k: int| 0 <= k < whole.len() && whole[k] == part[i];
        lemma_lookup(whole, k);
    } else {
        lemma_absent(part, key);
    }
}

/// What is left after one entry has gone is a part of the entries.
pub proof fn lemma_remove_is_part<K, V>(entries: Seq<(K, V)>, i: int)
    requires
        0 <= i < entries.len(),
    ensures
        part_of(entries.remove(i), entries),
{
    let rest = entries.remove(i);
    assert forall|j: int| 0 <= j < rest.len() implies entries.contains(#[trigger] rest[j]) by {
        if j < i {
            assert(entries[j] == rest[j]);
        } else {
            assert(entries[j + 1] == rest[j]);
        }
    }
}

/// A part of a part is a part.
pub proof fn lemma_part_of_part<K, V>(a: Seq<(K, V)>, b: Seq<(K, V)>, c: Seq<(K, V)>)
    requires
        part_of(a, b),
        part_of(b, c),
    ensures
        part_of(a, c),
{
    assert forall|i: int| 0 <= i < a.len() implies c.contains(#[trigger] a[i]) by {
        let k = choose|k: int| 0 <= k < b.len() && b[k] == a[i];
        assert(c.contains(b[k]));
    }
}

/// Eviction keeps to both limits, leaves a part of the entries, and lets none go
/// that was used after one that stays.
pub proof fn eviction_keeps_the_limits<K: View, T: Stored<K>>(
    entries: Seq<(K::V, T::V)>,
    max_len: nat,
    max_total: nat,
)
    ensures
        evicted::<K, T>(entries, max_len, max_total).len() <= max_len,
        total::<K, T>(evicted::<K, T>(entries, max_len, max_total)) <= max_total,
        part_of(evicted::<K, T>(entries, max_len, max_total), entries),
        forall|i: int, j: int|
            0 <= i < entries.len() && !evicted::<K, T>(entries, max_len, max_total).contains(
                #[trigger] entries[i],
            ) && 0 <= j < evicted::<K, T>(entries, max_len, max_total).len() ==> T::stamp(
                entries[i].1,
            ) <= T::stamp((#[trigger] evicted::<K, T>(entries, max_len, max_total)[j]).1),
    decreases entries.len(),
{
    let left = evicted::<K, T>(entries, max_len, max_total);
    if entries.len() == 0 || (entries.len() <= max_len && total::<K, T>(entries) <= max_total) {
        assert forall|i: int| 0 <= i < entries.len() implies entries.contains(
            #[trigger] entries[i],
        ) by {}
    } else {
        let at = oldest::<K, T>(entries);
        lemma_oldest::<K, T>(entries);
        let rest = entries.remove(at);
        eviction_keeps_the_limits::<K, T>(rest, max_len, max_total);
        lemma_remove_is_part(entries, at);
        lemma_part_of_part(left, rest, entries);
        assert forall|i: int, j: int|
            0 <= i < entries.len() && !left.contains(#[trigger] entries[i]) && 0 <= j
                < left.len() implies T::stamp(entries[i].1) <= T::stamp(
            (#[trigger] left[j]).1,
        ) by {
            if i == at {
                assert(entries.contains(left[j]));
                let k = choose|k: int| 0 <= k < entries.len() && entries[k] == left[j];
                assert(T::stamp(entries[at].1) <= T::stamp(entries[k].1));
            } else if i < at {
                assert(rest[i] == entries[i]);
            } else {
                assert(rest[i - 1] == entries[i]);
            }
        }
    }
}

/// Eviction lets no more go than it has to: where it lets any go, one of them would
/// break a limit if it were still there.
pub proof fn eviction_goes_no_further_than_needed<K: View, T: Stored<K>>(
    entries: Seq<(K::V, T::V)>,
    max_len: nat,
    max_total: nat,
)
    requires
        distinct(entries),
    ensures
        evicted::<K, T>(entries, max_len, max_total) == entries || exists|i: int|
            0 <= i < entries.len() && !evicted::<K, T>(entries, max_len, max_total).contains(
                #[trigger] entries[i],
            ) && (evicted::<K, T>(entries, max_len, max_total).len() + 1 > max_len || total::<
                K,
                T,
            >(evicted::<K, T>(entries, max_len, max_total)) + T::weight(entries[i].0, entries[i].1)
                > max_total),
    decreases entries.len(),
{
    let left = evicted::<K, T>(entries, max_len, max_total);
    if !(entries.len() == 0 || (entries.len() <= max_len && total::<K, T>(entries) <= max_total)) {
        let at = oldest::<K, T>(entries);
        lemma_oldest::<K, T>(entries);
        lemma_total_remove::<K, T>(entries, at);
        lemma_remove_is_part(entries, at);
        let rest = entries.remove(at);
        eviction_goes_no_further_than_needed::<K, T>(rest, max_len, max_total);
        if left == rest {
            if rest.contains(entries[at]) {
                let k = choose|k: int| 0 <= k < rest.len() && rest[k] == entries[at];
                if k < at {
                    assert(entries[k].0 == entries[at].0);
                } else {
                    assert(entries[k + 1].0 == entries[at].0);
                }
            }
            assert(!left.contains(entries[at]));
        } else {
            let k = choose|k: int|
                0 <= k < rest.len() && !left.contains(#[trigger] rest[k]) && (left.len() + 1
                    > max_len || total::<K, T>(left) + T::weight(rest[k].0, rest[k].1)
                    > max_total);
            if k < at {
                assert(entries[k] == rest[k]);
            } else {
                assert(entries[k + 1] == rest[k]);
            }
        }
    }
}

/// Dropping the stale entries adds neither entries nor weight.
pub proof fn lemma_fresh_total<K: View, T: Stored<K>>(
    entries: Seq<(K::V, T::V)>,
    now: u64,
    limit: u64,
)
    ensures
        fresh::<K, T>(entries, now, limit).len() <= entries.len(),
        total::<K, T>(fresh::<K, T>(entries, now, limit)) <= total::<K, T>(entries),
    decreases entries.len(),
{
    if entries.len() > 0 {
        let rest = fresh::<K, T>(entries.drop_last(), now, limit);
        lemma_fresh_total::<K, T>(entries.drop_last(), now, limit);
        lemma_total_push::<K, T>(rest, entries.last());
    }
}

/// Dropping the entries of a session adds neither entries nor weight.
pub proof fn lemma_outside_session_total<K: Key, T: Stored<K>>(
    entries: Seq<(K::V, T::V)>,
    session: Seq<char>,
)
    ensures
        outside_session::<K, T::V>(entries, session).len() <= entries.len(),
        total::<K, T>(outside_session::<K, T::V>(entries, session)) <= total::<K, T>(entries),
    decreases entries.len(),
{
    if entries.len() > 0 {
        let rest = outside_session::<K, T::V>(entries.drop_last(), session);
        lemma_outside_session_total::<K, T>(entries.drop_last(), session);
        lemma_total_push::<K, T>(rest, entries.last());
    }
}

/// After the stale entries have been dropped, a key holds what it held if that
/// was fresh, and nothing otherwise.
pub proof fn only_fresh_entries_stay<K: View, T: Stored<K>>(
    entries: Seq<(K::V, T::V)>,
    now: u64,
    limit: u64,
    key: K::V,
)
    requires
        distinct(entries),
    ensures
        lookup(fresh::<K, T>(entries, now, limit), key) == match lookup(entries, key) {
            Some(value) => if age(now, T::stamp(value)) <= limit {
                Some(value)
            } else {
                None
            },
            None => None,
        },
    decreases entries.len(),
{
    if entries.len() > 0 {
        let shorter = entries.drop_last();
        let rest = fresh::<K, T>(shorter, now, limit);
        only_fresh_entries_stay::<K, T>(shorter, now, limit, key);
        assert(rest.push(entries.last()).drop_last() =~= rest);
        if entries.last().0 == key {
            assert forall|i: int| 0 <= i < shorter.len() implies (#[trigger] shorter[i]).0
                != key by {
                assert(entries[i].0 != entries[entries.len() - 1].0);
            }
            lemma_absent(shorter, key);
        }
    }
}

/// Every entry that stays when the stale ones have been dropped is fresh.
pub proof fn lemma_fresh_entry<K: View, T: Stored<K>>(
    entries: Seq<(K::V, T::V)>,
    now: u64,
    limit: u64,
    entry: (K::V, T::V),
)
    requires
        fresh::<K, T>(entries, now, limit).contains(entry),
    ensures
        age(now, T::stamp(entry.1)) <= limit,
    decreases entries.len(),
{
    let left = fresh::<K, T>(entries, now, limit);
    let i = choose|i: int| 0 <= i < left.len() && left[i] == entry;
    if entries.len() > 0 {
        let rest = fresh::<K, T>(entries.drop_last(), now, limit);
        if i < rest.len() {
            assert(rest[i] == entry);
            lemma_fresh_entry::<K, T>(entries.drop_last(), now, limit, entry);
        }
    }
}

/// Entries that were stale are stale later too.
pub proof fn lemma_fresh_later<K: View, T: Stored<K>>(
    entries: Seq<(K::V, T::V)>,
    now: u64,
    later: u64,
    limit: u64,
)
    requires
        now <= later,
    ensures
        fresh::<K, T>(fresh::<K, T>(entries, now, limit), later, limit) == fresh::<K, T>(
            entries,
            later,
            limit,
        ),
    decreases entries.len(),
{
    if entries.len() > 0 {
        let rest = fresh::<K, T>(entries.drop_last(), now, limit);
        lemma_fresh_later::<K, T>(entries.drop_last(), now, later, limit);
        assert(rest.push(entries.last()).drop_last() =~= rest);
    }
}

/// After a session's entries have been dropped, its keys hold nothing and every
/// other key holds what it held.
pub proof fn dropping_a_session_spares_the_others<K: Key, V>(
    entries: Seq<(K::V, V)>,
    session: Seq<char>,
    key: K::V,
)
    ensures
        lookup(outside_session::<K, V>(entries, session), key) == if K::session(key) == session {
            None
        } else {
            lookup(entries, key)
        },
    decreases entries.len(),
{
    if entries.len() > 0 {
        let rest = outside_session::<K, V>(entries.drop_last(), session);
        dropping_a_session_spares_the_others::<K, V>(entries.drop_last(), session, key);
        assert(rest.push(entries.last()).drop_last() =~= rest);
    }
}

} // verus!
