//! The metadata of a container: typed values under keys, kept in key order.

use crate::text::{compare_keys, key_before, lemma_bytes_before_order, text_bytes, Order};
use crate::types::{GGUFValue, ValueView};
use vstd::prelude::*;

verus! {

/// A key and its value, as mathematical values.
pub type EntryView = (Seq<char>, ValueView);

/// The mapping that a list of entries spells: a later entry replaces an
/// earlier one under the same key.
pub open spec fn entries_map(entries: Seq<EntryView>) -> Map<Seq<char>, ValueView>
    decreases entries.len(),
{
    if entries.len() == 0 {
        Map::empty()
    } else {
        entries_map(entries.drop_last()).insert(entries.last().0, entries.last().1)
    }
}

/// Whether the keys of `entries` strictly ascend.
pub open spec fn keys_ascend(entries: Seq<EntryView>) -> bool {
    forall|i: int, j: int|
        0 <= i < j < entries.len() ==> key_before(#[trigger] entries[i].0, #[trigger] entries[j].0)
}

/// The order of keys is irreflexive and transitive, and of two different
/// keys one comes before the other.
pub proof fn lemma_key_order(a: Seq<char>, b: Seq<char>, c: Seq<char>)
    ensures
        !key_before(a, a),
        key_before(a, b) && key_before(b, c) ==> key_before(a, c),
        a != b ==> key_before(a, b) || key_before(b, a),
        !(key_before(a, b) && key_before(b, a)),
{
    lemma_bytes_before_order(text_bytes(a), text_bytes(b), text_bytes(c));
    if text_bytes(a) == text_bytes(b) {
        crate::text::lemma_text_bytes_injective(a, b);
    }
}

/// Under ascending keys every entry is the mapping's value at its key, and
/// the mapping has no other keys.
pub proof fn lemma_entries_map_ascending(entries: Seq<EntryView>)
    requires
        keys_ascend(entries),
    ensures
        forall|i: int|
            0 <= i < entries.len() ==> entries_map(entries).contains_key(#[trigger] entries[i].0)
                && entries_map(entries)[entries[i].0] == entries[i].1,
        forall|k: Seq<char>| #[trigger]
            entries_map(entries).contains_key(k) ==> exists|i: int|
                0 <= i < entries.len() && #[trigger] entries[i].0 == k,
    decreases entries.len(),
{
    if entries.len() > 0 {
        let front = entries.drop_last();
        let last = entries.last();
        assert forall|i: int, j: int| 0 <= i < j < front.len() implies key_before(
            #[trigger] front[i].0,
            #[trigger] front[j].0,
        ) by {
            assert(front[i] == entries[i] && front[j] == entries[j]);
        }
        lemma_entries_map_ascending(front);
        assert forall|i: int| 0 <= i < entries.len() implies entries_map(entries).contains_key(
            #[trigger] entries[i].0,
        ) && entries_map(entries)[entries[i].0] == entries[i].1 by {
            if i < entries.len() - 1 {
                assert(front[i] == entries[i]);
                assert(key_before(entries[i].0, entries[entries.len() - 1].0));
                lemma_key_order(entries[i].0, last.0, last.0);
            }
        }
        assert forall|k: Seq<char>| #[trigger]
            entries_map(entries).contains_key(k) implies exists|i: int|
            0 <= i < entries.len() && #[trigger] entries[i].0 == k by {
            if k == last.0 {
                assert(entries[entries.len() - 1].0 == k);
            } else {
                assert(entries_map(front).contains_key(k));
                let i = choose|i: int| 0 <= i < front.len() && #[trigger] front[i].0 == k;
                assert(entries[i].0 == k);
            }
        }
    }
}

/// The metadata of a container. No key occurs twice, and the entries stand
/// in the order of their keys.
#[derive(Debug, Clone)]
pub struct Metadata {
    entries: Vec<(String, GGUFValue)>,
}

impl View for Metadata {
    type V = Map<Seq<char>, ValueView>;

    closed spec fn view(&self) -> Map<Seq<char>, ValueView> {
        entries_map(self.entries())
    }
}

impl Metadata {
    /// The entries in the order in which they stand.
    pub closed spec fn entries(&self) -> Seq<EntryView> {
        Seq::new(self.entries@.len(), |i: int| (self.entries@[i].0@, self.entries@[i].1@))
    }

    /// The invariant: the keys strictly ascend.
    pub open spec fn wf(&self) -> bool {
        keys_ascend(self.entries())
    }

    /// The view is the mapping that the entries spell.
    pub proof fn lemma_view(&self)
        ensures
            self@ == entries_map(self.entries()),
    {
    }

    /// Metadata without entries.
    pub fn new() -> (m: Metadata)
        ensures
            m.wf(),
            m.entries() == Seq::<EntryView>::empty(),
            m@ == Map::<Seq<char>, ValueView>::empty(),
    {
        let m = Metadata { entries: Vec::new() };
        assert(m.entries() =~= Seq::<EntryView>::empty());
        m
    }

    /// The number of entries.
    pub fn len(&self) -> (n: usize)
        ensures
            n == self.entries().len(),
    {
        self.entries.len()
    }

    /// Whether there is no entry.
    pub fn is_empty(&self) -> (b: bool)
        ensures
            b == (self.entries().len() == 0),
    {
        self.entries.len() == 0
    }

    /// The key of the entry at `i`.
    pub fn key_at(&self, i: usize) -> (key: &String)
        requires
            i < self.entries().len(),
        ensures
            key@ == self.entries()[i as int].0,
    {
        &self.entries[i].0
    }

    /// The value of the entry at `i`.
    pub fn value_at(&self, i: usize) -> (value: &GGUFValue)
        requires
            i < self.entries().len(),
        ensures
            value@ == self.entries()[i as int].1,
    {
        &self.entries[i].1
    }

    /// The place of `key`: the index of the first entry whose key does not
    /// come before it.
    fn lower_bound(&self, key: &str) -> (at: usize)
        requires
            self.wf(),
        ensures
            at <= self.entries().len(),
            forall|i: int| 0 <= i < at ==> key_before(#[trigger] self.entries()[i].0, key@),
            forall|i: int|
                at <= i < self.entries().len() ==> !key_before(
                    #[trigger] self.entries()[i].0,
                    key@,
                ),
    {
        let mut lo: usize = 0;
        let mut hi: usize = self.entries.len();
        while lo < hi
            invariant
                self.wf(),
                lo <= hi <= self.entries().len(),
                self.entries().len() == self.entries@.len(),
                forall|i: int| 0 <= i < lo ==> key_before(#[trigger] self.entries()[i].0, key@),
                forall|i: int|
                    hi <= i < self.entries().len() ==> !key_before(
                        #[trigger] self.entries()[i].0,
                        key@,
                    ),
            decreases hi - lo,
        {
            let mid = lo + (hi - lo) / 2;
            let o = compare_keys(self.entries[mid].0.as_str(), key);
            let ghost mid_key = self.entries()[mid as int].0;
            if o == Order::Before {
                assert forall|i: int| 0 <= i < mid + 1 implies key_before(
                    #[trigger] self.entries()[i].0,
                    key@,
                ) by {
                    if i < mid {
                        assert(key_before(self.entries()[i].0, self.entries()[mid as int].0));
                        lemma_key_order(self.entries()[i].0, mid_key, key@);
                    }
                }
                lo = mid + 1;
            } else {
                assert forall|i: int| mid <= i < self.entries().len() implies !key_before(
                    #[trigger] self.entries()[i].0,
                    key@,
                ) by {
                    if mid < i {
                        assert(key_before(self.entries()[mid as int].0, self.entries()[i].0));
                        lemma_key_order(mid_key, self.entries()[i].0, key@);
                    }
                }
                hi = mid;
            }
        }
        lo
    }

    /// The value under `key`, if there is one.
    pub fn get(&self, key: &str) -> (found: Option<&GGUFValue>)
        requires
            self.wf(),
        ensures
            found is Some <==> self@.contains_key(key@),
            found matches Some(value) ==> value@ == self@[key@],
    {
        let at = self.lower_bound(key);
        proof {
            lemma_entries_map_ascending(self.entries());
        }
        if at < self.entries.len() {
            let o = compare_keys(self.entries[at].0.as_str(), key);
            if o == Order::Same {
                assert(self.entries()[at as int].0 == key@);
                return Some(&self.entries[at].1);
            }
        }
        proof {
            if self@.contains_key(key@) {
                let i = choose|i: int|
                    0 <= i < self.entries().len() && #[trigger] self.entries()[i].0 == key@;
                lemma_key_order(key@, key@, key@);
                if i > at {
                    assert(key_before(self.entries()[at as int].0, self.entries()[i].0));
                }
            }
        }
        None
    }

    /// Whether there is a value under `key`.
    pub fn contains_key(&self, key: &str) -> (b: bool)
        requires
            self.wf(),
        ensures
            b == self@.contains_key(key@),
    {
        self.get(key).is_some()
    }

    /// Puts `value` under `key`, in place of the value that may stand there.
    pub fn insert(&mut self, key: String, value: GGUFValue)
        requires
            old(self).wf(),
        ensures
            final(self).wf(),
            final(self)@ == old(self)@.insert(key@, value@),
    {
        let at = self.lower_bound(key.as_str());
        let ghost before = self.entries();
        let ghost entry = (key@, value@);
        proof {
            lemma_entries_map_ascending(before);
        }
        let replace = at < self.entries.len() && compare_keys(
            self.entries[at].0.as_str(),
            key.as_str(),
        ) == Order::Same;
        if replace {
            self.entries.set(at, (key, value));
            proof {
                let after = self.entries();
                assert(after =~= before.update(at as int, entry));
                assert forall|i: int, j: int| 0 <= i < j < after.len() implies key_before(
                    #[trigger] after[i].0,
                    #[trigger] after[j].0,
                ) by {
                    assert(key_before(before[i].0, before[j].0));
                }
                lemma_entries_map_ascending(after);
                lemma_same_keys_same_map(before, after, at as int, entry);
            }
        } else {
            self.entries.insert(at, (key, value));
            proof {
                let after = self.entries();
                assert(after =~= before.insert(at as int, entry));
                assert forall|i: int, j: int| 0 <= i < j < after.len() implies key_before(
                    #[trigger] after[i].0,
                    #[trigger] after[j].0,
                ) by {
                    if j < at {
                        assert(key_before(before[i].0, before[j].0));
                    } else if j == at {
                        assert(key_before(before[i].0, entry.0));
                    } else if i == at {
                        assert(!key_before(before[j - 1].0, entry.0));
                        lemma_key_order(before[j - 1].0, entry.0, entry.0);
                        if j - 1 > at {
                            assert(key_before(before[at as int].0, before[j - 1].0));
                            lemma_key_order(entry.0, before[at as int].0, before[j - 1].0);
                            lemma_key_order(before[at as int].0, entry.0, entry.0);
                        }
                    } else if i < at {
                        assert(key_before(before[i].0, before[j - 1].0));
                    } else {
                        assert(key_before(before[i - 1].0, before[j - 1].0));
                    }
                }
                lemma_entries_map_ascending(after);
                lemma_new_key_new_map(before, after, at as int, entry);
            }
        }
    }
}

/// Replacing the value of one entry puts the new value under its key.
proof fn lemma_same_keys_same_map(
    before: Seq<EntryView>,
    after: Seq<EntryView>,
    at: int,
    entry: EntryView,
)
    requires
        keys_ascend(before),
        keys_ascend(after),
        0 <= at < before.len(),
        before[at].0 == entry.0,
        after == before.update(at, entry),
    ensures
        entries_map(after) == entries_map(before).insert(entry.0, entry.1),
{
    lemma_entries_map_ascending(before);
    lemma_entries_map_ascending(after);
    let a = entries_map(after);
    let b = entries_map(before).insert(entry.0, entry.1);
    assert forall|k: Seq<char>| a.contains_key(k) <==> b.contains_key(k) by {
        if a.contains_key(k) {
            let i = choose|i: int| 0 <= i < after.len() && #[trigger] after[i].0 == k;
            assert(before[i].0 == k);
        }
        if b.contains_key(k) && k != entry.0 {
            let i = choose|i: int| 0 <= i < before.len() && #[trigger] before[i].0 == k;
            assert(after[i].0 == k);
        }
        if k == entry.0 {
            assert(after[at].0 == k);
        }
    }
    assert forall|k: Seq<char>| a.contains_key(k) implies a[k] == b[k] by {
        let i = choose|i: int| 0 <= i < after.len() && #[trigger] after[i].0 == k;
        if i != at {
            assert(before[i].0 == k);
            if i < at {
                assert(key_before(before[i].0, before[at].0));
            } else {
                assert(key_before(before[at].0, before[i].0));
            }
            lemma_key_order(k, k, k);
        } else {
            assert(after[at] == entry);
        }
    }
    assert(a =~= b);
}

/// Inserting an entry under a key that was not there puts its value under
/// that key and leaves the rest.
proof fn lemma_new_key_new_map(
    before: Seq<EntryView>,
    after: Seq<EntryView>,
    at: int,
    entry: EntryView,
)
    requires
        keys_ascend(before),
        keys_ascend(after),
        0 <= at <= before.len(),
        after == before.insert(at, entry),
    ensures
        entries_map(after) == entries_map(before).insert(entry.0, entry.1),
{
    lemma_entries_map_ascending(before);
    lemma_entries_map_ascending(after);
    let a = entries_map(after);
    let b = entries_map(before).insert(entry.0, entry.1);
    assert(after[at] == entry);
    assert forall|k: Seq<char>| a.contains_key(k) <==> b.contains_key(k) by {
        if a.contains_key(k) {
            let i = choose|i: int| 0 <= i < after.len() && #[trigger] after[i].0 == k;
            if i < at {
                assert(before[i].0 == k);
            } else if i > at {
                assert(before[i - 1].0 == k);
            }
        }
        if b.contains_key(k) && k != entry.0 {
            let i = choose|i: int| 0 <= i < before.len() && #[trigger] before[i].0 == k;
            if i < at {
                assert(after[i].0 == k);
            } else {
                assert(after[i + 1].0 == k);
            }
        }
        if k == entry.0 {
            assert(after[at].0 == k);
        }
    }
    assert forall|k: Seq<char>| a.contains_key(k) implies a[k] == b[k] by {
        let i = choose|i: int| 0 <= i < after.len() && #[trigger] after[i].0 == k;
        if i < at {
            assert(before[i] == after[i]);
            assert(key_before(after[i].0, after[at].0));
            lemma_key_order(k, k, k);
        } else if i > at {
            assert(before[i - 1] == after[i]);
            assert(key_before(after[at].0, after[i].0));
            lemma_key_order(k, k, k);
        }
    }
    assert(a =~= b);
}

/// The entries before the last, where the keys ascend: they ascend too,
/// and they spell the mapping without the last key.
proof fn lemma_front_of_ascending(entries: Seq<EntryView>)
    requires
        keys_ascend(entries),
        entries.len() > 0,
    ensures
        keys_ascend(entries.drop_last()),
        entries_map(entries.drop_last()) == entries_map(entries).remove(entries.last().0),
        forall|k: Seq<char>| #[trigger]
            entries_map(entries).contains_key(k) && k != entries.last().0 ==> key_before(
                k,
                entries.last().0,
            ),
{
    let front = entries.drop_last();
    let last = entries.last();
    assert forall|i: int, j: int| 0 <= i < j < front.len() implies key_before(
        #[trigger] front[i].0,
        #[trigger] front[j].0,
    ) by {
        assert(front[i] == entries[i] && front[j] == entries[j]);
    }
    lemma_entries_map_ascending(front);
    lemma_entries_map_ascending(entries);
    assert(!entries_map(front).contains_key(last.0)) by {
        if entries_map(front).contains_key(last.0) {
            let i = choose|i: int| 0 <= i < front.len() && #[trigger] front[i].0 == last.0;
            assert(key_before(entries[i].0, entries[entries.len() - 1].0));
            lemma_key_order(last.0, last.0, last.0);
        }
    }
    assert(entries_map(front) =~= entries_map(entries).remove(last.0));
    assert forall|k: Seq<char>| #[trigger]
        entries_map(entries).contains_key(k) && k != last.0 implies key_before(k, last.0) by {
        let i = choose|i: int| 0 <= i < entries.len() && #[trigger] entries[i].0 == k;
        assert(key_before(entries[i].0, entries[entries.len() - 1].0));
    }
}

/// A mapping has one list of entries with ascending keys: metadata is
/// known by its mapping.
pub proof fn lemma_ascending_entries_unique(a: Seq<EntryView>, b: Seq<EntryView>)
    requires
        keys_ascend(a),
        keys_ascend(b),
        entries_map(a) == entries_map(b),
    ensures
        a == b,
    decreases a.len(),
{
    lemma_entries_map_ascending(a);
    lemma_entries_map_ascending(b);
    if a.len() == 0 || b.len() == 0 {
        if a.len() > 0 {
            assert(entries_map(a).contains_key(a[0].0));
        }
        if b.len() > 0 {
            assert(entries_map(b).contains_key(b[0].0));
        }
        assert(a =~= b);
    } else {
        let la = a.last();
        let lb = b.last();
        lemma_front_of_ascending(a);
        lemma_front_of_ascending(b);
        assert(entries_map(a).contains_key(a[a.len() - 1].0));
        assert(entries_map(b).contains_key(b[b.len() - 1].0));
        lemma_key_order(la.0, lb.0, la.0);
        assert(la.0 == lb.0);
        assert(entries_map(a)[a[a.len() - 1].0] == la.1);
        assert(entries_map(b)[b[b.len() - 1].0] == lb.1);
        lemma_ascending_entries_unique(a.drop_last(), b.drop_last());
        assert(a =~= a.drop_last().push(la));
        assert(b =~= b.drop_last().push(lb));
    }
}

} // verus!
