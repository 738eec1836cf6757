//! A table from asset names to values, walked in the order of the names.
use vstd::prelude::*;

use crate::asset::{AssetUuid, Key, UUID_LEN};

verus! {

/// Whether `a` comes before `b`: they agree up to some byte, where `a` has the
/// smaller one.
pub open spec fn key_before(a: Key, b: Key) -> bool {
    exists|i: int| #[trigger] differ_first_at(a, b, i) && a[i] < b[i]
}

/// Whether `a` and `b` agree on the bytes before `i` and differ at `i`.
pub open spec fn differ_first_at(a: Key, b: Key, i: int) -> bool {
    &&& 0 <= i < a.len()
    &&& 0 <= i < b.len()
    &&& a[i] != b[i]
    &&& forall|j: int| 0 <= j < i ==> a[j] == b[j]
}

proof fn lemma_key_before_irreflexive(a: Key, b: Key)
    requires
        key_before(a, b),
    ensures
        a != b,
        !key_before(b, a),
{
    let i = choose|i: int| #[trigger] differ_first_at(a, b, i) && a[i] < b[i];
    if key_before(b, a) {
        let j = choose|j: int| #[trigger] differ_first_at(b, a, j) && b[j] < a[j];
        assert(i == j);
    }
}

proof fn lemma_key_before_transitive(a: Key, b: Key, c: Key)
    requires
        key_before(a, b),
        key_before(b, c),
    ensures
        key_before(a, c),
{
    let i = choose|i: int| #[trigger] differ_first_at(a, b, i) && a[i] < b[i];
    let j = choose|j: int| #[trigger] differ_first_at(b, c, j) && b[j] < c[j];
    let k = if i < j {
        i
    } else {
        j
    };
    assert(differ_first_at(a, c, k) && a[k] < c[k]);
}

/// Where one name stands against another.
enum Place {
    Before,
    Same,
    After,
}

fn place(a: &AssetUuid, b: &AssetUuid) -> (res: Place)
    ensures
        match res {
            Place::Before => key_before(a@, b@),
            Place::Same => a@ == b@,
            Place::After => key_before(b@, a@),
        },
{
    let mut i: usize = 0;
    while i < UUID_LEN
        invariant
            i <= UUID_LEN,
            forall|j: int| 0 <= j < i ==> a@[j] == b@[j],
        decreases UUID_LEN - i,
    {
        if a.0[i] < b.0[i] {
            assert(differ_first_at(a@, b@, i as int) && a@[i as int] < b@[i as int]);
            return Place::Before;
        }
        if b.0[i] < a.0[i] {
            assert(differ_first_at(b@, a@, i as int) && b@[i as int] < a@[i as int]);
            return Place::After;
        }
        i += 1;
    }
    assert(a@ =~= b@);
    Place::Same
}

/// A table from asset names to values.
#[derive(Debug)]
pub struct Table<V> {
    entries: Vec<(AssetUuid, V)>,
}

impl<V: View> View for Table<V> {
    type V = Map<Key, V::V>;

    closed spec fn view(&self) -> Map<Key, V::V> {
        Map::new(
            |key: Key| exists|i: int| 0 <= i < self.entries@.len() && #[trigger] self.entries@[i].0@ == key,
            |key: Key| self.entries@[self.index_of(key)].1@,
        )
    }
}

impl<V: View> Table<V> {
    /// The entries stand in the order of their names, each name once.
    pub closed spec fn wf(&self) -> bool {
        forall|i: int, j: int|
            0 <= i < j < self.entries@.len() ==> #[trigger] key_before(
                self.entries@[i].0@,
                self.entries@[j].0@,
            )
    }

    /// The place of the entry for `key`.
    spec fn index_of(&self, key: Key) -> int {
        choose|i: int| 0 <= i < self.entries@.len() && #[trigger] self.entries@[i].0@ == key
    }

    /// The names in the table, in order.
    pub closed spec fn keys(&self) -> Seq<Key> {
        Seq::new(self.entries@.len(), |i: int| self.entries@[i].0@)
    }

    proof fn lemma_at(&self, i: int)
        requires
            self.wf(),
            0 <= i < self.entries@.len(),
        ensures
            self@.contains_key(self.entries@[i].0@),
            self@[self.entries@[i].0@] == self.entries@[i].1@,
    {
        let key = self.entries@[i].0@;
        let k = self.index_of(key);
        assert(k == i) by {
            if k < i {
                assert(key_before(self.entries@[k].0@, self.entries@[i].0@));
                lemma_key_before_irreflexive(self.entries@[k].0@, self.entries@[i].0@);
            } else if i < k {
                assert(key_before(self.entries@[i].0@, self.entries@[k].0@));
                lemma_key_before_irreflexive(self.entries@[i].0@, self.entries@[k].0@);
            }
        }
    }

    /// The names in the table are finitely many, and each is sixteen bytes long.
    pub proof fn lemma_domain(&self)
        ensures
            self@.dom().finite(),
            forall|key: Key| #[trigger] self@.contains_key(key) ==> key.len() == UUID_LEN,
    {
        assert(self@.dom() =~= self.keys().to_set()) by {
            assert forall|key: Key| #[trigger] self@.contains_key(key) implies self.keys().contains(
                key,
            ) by {
                let i = choose|i: int|
                    0 <= i < self.entries@.len() && #[trigger] self.entries@[i].0@ == key;
                assert(self.keys()[i] == key);
            }
            assert forall|key: Key| #[trigger] self.keys().contains(key) implies self@.contains_key(
                key,
            ) by {
                let i = choose|i: int| 0 <= i < self.keys().len() && self.keys()[i] == key;
                assert(self.entries@[i].0@ == key);
            }
        }
        vstd::seq_lib::seq_to_set_is_finite(self.keys());
    }

    /// An empty table.
    pub fn new() -> (table: Self)
        ensures
            table.wf(),
            table@ == Map::<Key, V::V>::empty(),
    {
        let table = Table { entries: Vec::new() };
        assert(table@ =~= Map::<Key, V::V>::empty());
        table
    }

    /// The number of entries whose name comes before `key`.
    fn position(&self, key: &AssetUuid) -> (at: usize)
        requires
            self.wf(),
        ensures
            at <= self.entries@.len(),
            forall|i: int|
                0 <= i < at ==> key_before((#[trigger] self.entries@[i]).0@, key@),
            forall|i: int|
                at <= i < self.entries@.len() ==> (#[trigger] self.entries@[i]).0@ == key@
                    || key_before(key@, self.entries@[i].0@),
            forall|i: int|
                at < i < self.entries@.len() ==> key_before(key@, (#[trigger] self.entries@[i]).0@),
            self@.contains_key(key@) <==> at < self.entries@.len() && self.entries@[at as int].0@
                == key@,
    {
        let mut low: usize = 0;
        let mut high: usize = self.entries.len();
        while low < high
            invariant
                self.wf(),
                low <= high <= self.entries@.len(),
                forall|i: int|
                    0 <= i < low ==> key_before((#[trigger] self.entries@[i]).0@, key@),
                forall|i: int|
                    high <= i < self.entries@.len() ==> (#[trigger] self.entries@[i]).0@ == key@
                        || key_before(key@, self.entries@[i].0@),
            decreases high - low,
        {
            let mid: usize = low + (high - low) / 2;
            match place(&self.entries[mid].0, key) {
                Place::Before => {
                    assert forall|i: int| 0 <= i <= mid implies key_before(
                        (#[trigger] self.entries@[i]).0@,
                        key@,
                    ) by {
                        if i < mid {
                            assert(key_before(self.entries@[i].0@, self.entries@[mid as int].0@));
                            lemma_key_before_transitive(
                                self.entries@[i].0@,
                                self.entries@[mid as int].0@,
                                key@,
                            );
                        }
                    }
                    low = mid + 1;
                },
                _ => {
                    assert forall|i: int| mid <= i < self.entries@.len() implies (
                    #[trigger] self.entries@[i]).0@ == key@ || key_before(
                        key@,
                        self.entries@[i].0@,
                    ) by {
                        if mid < i {
                            assert(key_before(self.entries@[mid as int].0@, self.entries@[i].0@));
                            if self.entries@[mid as int].0@ != key@ {
                                lemma_key_before_transitive(
                                    key@,
                                    self.entries@[mid as int].0@,
                                    self.entries@[i].0@,
                                );
                            }
                        }
                    }
                    high = mid;
                },
            }
        }
        proof {
            assert forall|i: int| low < i < self.entries@.len() implies key_before(
                key@,
                (#[trigger] self.entries@[i]).0@,
            ) by {
                assert(key_before(self.entries@[low as int].0@, self.entries@[i].0@));
                if self.entries@[low as int].0@ != key@ {
                    lemma_key_before_transitive(
                        key@,
                        self.entries@[low as int].0@,
                        self.entries@[i].0@,
                    );
                }
            }
            if self@.contains_key(key@) {
                let i = choose|i: int|
                    0 <= i < self.entries@.len() && #[trigger] self.entries@[i].0@ == key@;
                if i < low {
                    lemma_key_before_irreflexive(self.entries@[i].0@, key@);
                } else if i > low {
                    lemma_key_before_irreflexive(key@, self.entries@[i].0@);
                }
            }
        }
        low
    }

    /// The value under `key`, if there is one.
    pub fn get(&self, key: &AssetUuid) -> (res: Option<&V>)
        requires
            self.wf(),
        ensures
            match res {
                Some(value) => self@.contains_key(key@) && self@[key@] == value@,
                None => !self@.contains_key(key@),
            },
    {
        let at = self.position(key);
        if at < self.entries.len() && self.entries[at].0.same(key) {
            proof {
                self.lemma_at(at as int);
            }
            Some(&self.entries[at].1)
        } else {
            None
        }
    }

    /// Puts `value` under `key`, in place of what was there.
    pub fn put(&mut self, key: AssetUuid, value: V)
        requires
            old(self).wf(),
        ensures
            final(self).wf(),
            final(self)@ == old(self)@.insert(key@, value@),
    {
        let at = self.position(&key);
        if at < self.entries.len() && self.entries[at].0.same(&key) {
            self.entries.remove(at);
            self.entries.insert(at, (key, value));
            assert(self.entries@ =~= old(self).entries@.update(at as int, (key, value)));
            assert forall|i: int, j: int|
                0 <= i < j < self.entries@.len() implies #[trigger] key_before(
                self.entries@[i].0@,
                self.entries@[j].0@,
            ) by {
                assert(key_before(old(self).entries@[i].0@, old(self).entries@[j].0@));
            }
            proof {
                assert forall|k: Key| #[trigger] self@.contains_key(k) == old(self)@.insert(
                    key@,
                    value@,
                ).contains_key(k) && (self@.contains_key(k) ==> self@[k] == old(self)@.insert(
                    key@,
                    value@,
                )[k]) by {
                    if self@.contains_key(k) {
                        let i = choose|i: int|
                            0 <= i < self.entries@.len() && #[trigger] self.entries@[i].0@ == k;
                        self.lemma_at(i);
                        old(self).lemma_at(i);
                        if i == at {
                            assert(k == key@);
                        } else if k == key@ {
                            if i < at {
                                lemma_key_before_irreflexive(old(self).entries@[i].0@, key@);
                            } else {
                                lemma_key_before_irreflexive(key@, old(self).entries@[i].0@);
                            }
                        }
                    }
                    if old(self)@.insert(key@, value@).contains_key(k) {
                        if k == key@ {
                            self.lemma_at(at as int);
                        } else {
                            let i = choose|i: int|
                                0 <= i < old(self).entries@.len()
                                    && #[trigger] old(self).entries@[i].0@ == k;
                            assert(self.entries@[i].0@ == k);
                        }
                    }
                }
                assert(self@ =~= old(self)@.insert(key@, value@));
            }
        } else {
            self.entries.insert(at, (key, value));
            assert forall|i: int, j: int|
                0 <= i < j < self.entries@.len() implies #[trigger] key_before(
                self.entries@[i].0@,
                self.entries@[j].0@,
            ) by {
                if j < at {
                    assert(key_before(old(self).entries@[i].0@, old(self).entries@[j].0@));
                } else if j == at {
                    assert(key_before(old(self).entries@[i].0@, key@));
                } else if i < at {
                    assert(key_before(old(self).entries@[i].0@, old(self).entries@[j - 1].0@));
                } else if i == at {
                    assert(old(self).entries@[j - 1].0@ == key@ || key_before(
                        key@,
                        old(self).entries@[j - 1].0@,
                    ));
                } else {
                    assert(key_before(old(self).entries@[i - 1].0@, old(self).entries@[j - 1].0@));
                }
            }
            proof {
                assert forall|k: Key| #[trigger] self@.contains_key(k) == old(self)@.insert(
                    key@,
                    value@,
                ).contains_key(k) && (self@.contains_key(k) ==> self@[k] == old(self)@.insert(
                    key@,
                    value@,
                )[k]) by {
                    if self@.contains_key(k) {
                        let i = choose|i: int|
                            0 <= i < self.entries@.len() && #[trigger] self.entries@[i].0@ == k;
                        self.lemma_at(i);
                        if i < at {
                            old(self).lemma_at(i);
                        } else if i > at {
                            assert(self.entries@[i] == old(self).entries@[i - 1]);
                            old(self).lemma_at(i - 1);
                        }
                    }
                    if old(self)@.insert(key@, value@).contains_key(k) {
                        if k == key@ {
                            self.lemma_at(at as int);
                        } else {
                            let i = choose|i: int|
                                0 <= i < old(self).entries@.len()
                                    && #[trigger] old(self).entries@[i].0@ == k;
                            if i < at {
                                assert(self.entries@[i].0@ == k);
                            } else {
                                assert(self.entries@[i + 1].0@ == k);
                            }
                        }
                    }
                }
                assert(self@ =~= old(self)@.insert(key@, value@));
            }
        }
    }

    /// Removes what is under `key`, and says whether there was anything.
    pub fn delete(&mut self, key: &AssetUuid) -> (existed: bool)
        requires
            old(self).wf(),
        ensures
            final(self).wf(),
            existed == old(self)@.contains_key(key@),
            final(self)@ == old(self)@.remove(key@),
    {
        let at = self.position(key);
        if at < self.entries.len() && self.entries[at].0.same(key) {
            self.entries.remove(at);
            assert forall|i: int, j: int|
                0 <= i < j < self.entries@.len() implies #[trigger] key_before(
                self.entries@[i].0@,
                self.entries@[j].0@,
            ) by {
                let i0 = if i < at {
                    i
                } else {
                    i + 1
                };
                let j0 = if j < at {
                    j
                } else {
                    j + 1
                };
                assert(key_before(old(self).entries@[i0].0@, old(self).entries@[j0].0@));
            }
            proof {
                assert forall|k: Key| #[trigger] self@.contains_key(k) == old(self)@.remove(
                    key@,
                ).contains_key(k) && (self@.contains_key(k) ==> self@[k] == old(self)@.remove(
                    key@,
                )[k]) by {
                    if self@.contains_key(k) {
                        let i = choose|i: int|
                            0 <= i < self.entries@.len() && #[trigger] self.entries@[i].0@ == k;
                        self.lemma_at(i);
                        let i0 = if i < at {
                            i
                        } else {
                            i + 1
                        };
                        old(self).lemma_at(i0);
                        if i < at {
                            lemma_key_before_irreflexive(old(self).entries@[i0].0@, key@);
                        } else {
                            lemma_key_before_irreflexive(key@, old(self).entries@[i0].0@);
                        }
                    }
                    if old(self)@.remove(key@).contains_key(k) {
                        let i = choose|i: int|
                            0 <= i < old(self).entries@.len()
                                && #[trigger] old(self).entries@[i].0@ == k;
                        if i < at {
                            assert(self.entries@[i].0@ == k);
                        } else {
                            assert(self.entries@[i - 1].0@ == k);
                        }
                    }
                }
                assert(self@ =~= old(self)@.remove(key@));
            }
            true
        } else {
            assert(self@ =~= old(self)@.remove(key@));
            false
        }
    }

    /// The entries, in the order of their names.
    pub fn entries(&self) -> (res: &Vec<(AssetUuid, V)>)
        requires
            self.wf(),
        ensures
            lists_in_order(res@, self@),
    {
        proof {
            assert forall|i: int| 0 <= i < self.entries@.len() implies self@.contains_key(
                (#[trigger] self.entries@[i]).0@,
            ) && self@[self.entries@[i].0@] == self.entries@[i].1@ by {
                self.lemma_at(i);
            }
        }
        &self.entries
    }
}

/// Whether `entries` lists just what `table` holds, in the order of the names.
pub open spec fn lists_in_order<V: View>(entries: Seq<(AssetUuid, V)>, table: Map<Key, V::V>) -> bool {
    &&& forall|i: int, j: int|
        0 <= i < j < entries.len() ==> #[trigger] key_before(entries[i].0@, entries[j].0@)
    &&& forall|i: int|
        0 <= i < entries.len() ==> table.contains_key((#[trigger] entries[i]).0@)
            && table[entries[i].0@] == entries[i].1@
    &&& forall|key: Key| #[trigger]
        table.contains_key(key) ==> exists|i: int|
            0 <= i < entries.len() && #[trigger] entries[i].0@ == key
}

/// A listing of a table holds each entry of it, and no other.
pub proof fn lemma_lists_all<V: View>(entries: Seq<(AssetUuid, V)>, table: Map<Key, V::V>)
    requires
        lists_in_order(entries, table),
    ensures
        forall|i: int|
            0 <= i < entries.len() ==> table.contains_key((#[trigger] entries[i]).0@)
                && table[entries[i].0@] == entries[i].1@,
        forall|key: Key| #[trigger]
            table.contains_key(key) ==> exists|i: int|
                0 <= i < entries.len() && (#[trigger] entries[i]).0@ == key,
{
    assert forall|key: Key| #[trigger] table.contains_key(key) implies exists|i: int|
        0 <= i < entries.len() && (#[trigger] entries[i]).0@ == key by {
        let i = choose|i: int| 0 <= i < entries.len() && #[trigger] entries[i].0@ == key;
        assert(entries[i].0@ == key);
    }
}

/// A listing of a table goes by the bytes of the names: of two entries, the earlier
/// has the smaller byte in the first place where their names differ.
pub proof fn law_listed_in_byte_order<V: View>(
    entries: Seq<(AssetUuid, V)>,
    table: Map<Key, V::V>,
    i: int,
    j: int,
)
    requires
        lists_in_order(entries, table),
        0 <= i < j < entries.len(),
    ensures
        exists|k: int|
            0 <= k < 16 && #[trigger] entries[i].0@[k] < entries[j].0@[k] && forall|m: int|
                0 <= m < k ==> #[trigger] entries[i].0@[m] == entries[j].0@[m],
{
    let a = entries[i].0@;
    let b = entries[j].0@;
    assert(key_before(a, b));
    let k = choose|k: int| #[trigger] differ_first_at(a, b, k) && a[k] < b[k];
    assert(a[k] < b[k]);
}

}
