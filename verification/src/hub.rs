//! The hub itself: what it reads from the tables, and its listeners.
use std::collections::HashMap;

use futures::sync::mpsc::Sender;
use vstd::prelude::*;

use crate::asset::{AssetUuid, Key};
use crate::change::{latest_change, parse_sequence_key, AssetBatchEvent, ChangeRecord};
use crate::listener::{told_once, try_send, Delivery, Listener};
use crate::listener_laws::{
    law_each_told_once, law_listeners_kept, law_only_disconnected_forgotten,
};
use crate::message::{Message, StoredMetadata, UuidList};
use crate::table::lists_in_order;
use crate::transaction::RwTransaction;

verus! {

/// The number by which a listener is known.
pub type ListenerID = u64;

/// Whether `deliveries` has one entry for each of `ids`, and no other.
pub open spec fn one_for_each(deliveries: Seq<(ListenerID, Delivery)>, ids: Set<ListenerID>) -> bool {
    &&& forall|i: int, j: int|
        0 <= i < j < deliveries.len() ==> (#[trigger] deliveries[i]).0 != (
        #[trigger] deliveries[j]).0
    &&& forall|i: int| 0 <= i < deliveries.len() ==> ids.contains((#[trigger] deliveries[i]).0)
    &&& forall|id: ListenerID| #[trigger]
        ids.contains(id) ==> exists|i: int|
            0 <= i < deliveries.len() && (#[trigger] deliveries[i]).0 == id
}

/// The listeners whose receiver was found to be gone.
pub open spec fn disconnected(deliveries: Seq<(ListenerID, Delivery)>) -> Set<ListenerID> {
    Set::new(
        |id: ListenerID|
            exists|i: int|
                0 <= i < deliveries.len() && #[trigger] deliveries[i] == (
                    id,
                    Delivery::Disconnected,
                ),
    )
}

/// Whether `after` is what became of the listeners `before` when each was told
/// that a batch was committed, once, and `deliveries` says what came of it.
pub open spec fn all_told(
    before: Map<ListenerID, Listener>,
    after: Map<ListenerID, Listener>,
    deliveries: Seq<(ListenerID, Delivery)>,
) -> bool {
    &&& one_for_each(deliveries, before.dom())
    &&& after.dom() == before.dom()
    &&& forall|i: int|
        0 <= i < deliveries.len() ==> {
            let (id, delivery) = #[trigger] deliveries[i];
            told_once(before[id], after[id], AssetBatchEvent::Commit, delivery)
        }
}

/// The asset hub.
pub struct AssetHub {
    id_gen: u64,
    listeners: HashMap<ListenerID, Listener>,
}

impl AssetHub {
    /// The number that the next listener gets.
    pub closed spec fn next_listener(&self) -> ListenerID {
        self.id_gen
    }

    /// The listeners, by their numbers.
    pub closed spec fn listeners(&self) -> Map<ListenerID, Listener> {
        self.listeners@
    }

    /// Whether the number of every listener was given out before: it is below the
    /// next one.
    pub open spec fn numbers_given(&self) -> bool {
        forall|id: ListenerID| #[trigger]
            self.listeners().contains_key(id) ==> id < self.next_listener()
    }

    /// A hub without listeners.
    pub fn new() -> (hub: AssetHub)
        ensures
            hub.numbers_given(),
            hub.next_listener() == 1,
            hub.listeners() == Map::<ListenerID, Listener>::empty(),
    {
        AssetHub { id_gen: 1, listeners: HashMap::new() }
    }

    /// The metadata of each asset, in the order of their names.
    pub fn get_metadata_iter<'a>(&self, txn: &'a RwTransaction) -> (res: &'a Vec<
        (AssetUuid, Message<StoredMetadata>),
    >)
        requires
            txn.wf(),
        ensures
            lists_in_order(res@, txn@.metadata),
            forall|i: int|
                0 <= i < res@.len() ==> txn@.metadata.contains_key((#[trigger] res@[i]).0@)
                    && txn@.metadata[res@[i].0@] == res@[i].1@,
            forall|id: Key| #[trigger]
                txn@.metadata.contains_key(id) ==> exists|i: int|
                    0 <= i < res@.len() && (#[trigger] res@[i]).0@ == id,
    {
        txn.metadata_entries()
    }

    /// The metadata of an asset, if there is any.
    pub fn get_metadata<'a>(&self, txn: &'a RwTransaction, id: &AssetUuid) -> (res: Option<
        &'a Message<StoredMetadata>,
    >)
        requires
            txn.wf(),
        ensures
            match res {
                Some(message) => txn@.metadata.contains_key(id@) && txn@.metadata[id@] == message@,
                None => !txn@.metadata.contains_key(id@),
            },
    {
        txn.metadata(id)
    }

    /// The stored list of the assets that have a build dependency on an asset,
    /// if there is one.
    pub fn get_build_deps_reverse<'a>(&self, txn: &'a RwTransaction, id: &AssetUuid) -> (res: Option<
        &'a Message<UuidList>,
    >)
        requires
            txn.wf(),
        ensures
            match res {
                Some(message) => txn@.dependees.contains_key(id@) && txn@.dependees[id@] == message@,
                None => !txn@.dependees.contains_key(id@),
            },
    {
        txn.dependees(id)
    }

    /// The number of the last entry of the change log, or zero if it has none.
    pub fn get_latest_asset_change(&self, txn: &RwTransaction) -> (last_seq: u64)
        requires
            txn.wf(),
        ensures
            last_seq == latest_change(txn@.changes),
    {
        proof {
            txn.lemma_wf();
        }
        let changes = txn.changes();
        let n = changes.len();
        assert(changes@.map_values(|c: ChangeRecord| c@) == txn@.changes);
        if n == 0 {
            0
        } else {
            assert(txn@.changes[n - 1] == changes@[n - 1]@);
            parse_sequence_key(changes[n - 1].key.as_slice())
        }
    }

    /// The change log, in the order of its numbers.
    pub fn get_asset_changes_iter<'a>(&self, txn: &'a RwTransaction) -> (res: &'a Vec<ChangeRecord>)
        ensures
            res@.map_values(|c: ChangeRecord| c@) == txn@.changes,
    {
        txn.changes()
    }

    /// The numbers of the listeners, in no particular order.
    fn listener_ids(&self) -> (ids: Vec<ListenerID>)
        ensures
            ids@.no_duplicates(),
            ids@.to_set() == self.listeners().dom(),
    {
        let mut ids: Vec<ListenerID> = Vec::new();
        let ghost all = vstd::std_specs::iter::IteratorSpec::remaining(
            &self.listeners.keys(),
        ).unref();
        for id in keys: self.listeners.keys()
            invariant
                all == keys.seq().unref(),
                ids@ == all.take(keys.index() as int),
        {
            ids.push(*id);
        }
        assert(ids@ =~= all);
        ids
    }

    /// Tells every listener that a batch was committed, and says what came of
    /// each attempt.
    pub fn send_commit(&mut self) -> (deliveries: Vec<(ListenerID, Delivery)>)
        ensures
            all_told(old(self).listeners(), final(self).listeners(), deliveries@),
            forall|id: ListenerID| #[trigger]
                old(self).listeners().contains_key(id) ==> exists|delivery: Delivery|
                    {
                        &&& #[trigger] deliveries@.contains((id, delivery))
                        &&& final(self).listeners()[id].told() == old(
                            self,
                        ).listeners()[id].told().push((AssetBatchEvent::Commit, delivery))
                    },
            final(self).next_listener() == old(self).next_listener(),
    {
        let ids = self.listener_ids();
        let ghost before = self.listeners();
        let mut deliveries: Vec<(ListenerID, Delivery)> = Vec::new();
        let mut i: usize = 0;
        while i < ids.len()
            invariant
                i <= ids@.len(),
                ids@.no_duplicates(),
                before == old(self).listeners(),
                ids@.to_set() == before.dom(),
                self.listeners().dom() == before.dom(),
                self.next_listener() == old(self).next_listener(),
                deliveries@.len() == i,
                forall|j: int|
                    0 <= j < i ==> {
                        &&& (#[trigger] deliveries@[j]).0 == ids@[j]
                        &&& told_once(
                            before[ids@[j]],
                            self.listeners()[ids@[j]],
                            AssetBatchEvent::Commit,
                            deliveries@[j].1,
                        )
                    },
                forall|j: int|
                    i <= j < ids@.len() ==> self.listeners()[#[trigger] ids@[j]] == before[ids@[j]],
            decreases ids@.len() - i,
        {
            let id = ids[i];
            assert(ids@.to_set().contains(id));
            if let Some(mut listener) = self.listeners.remove(&id) {
                let delivery = try_send(&mut listener, AssetBatchEvent::Commit);
                deliveries.push((id, delivery));
                self.listeners.insert(id, listener);
            }
            assert(self.listeners().dom() =~= before.dom());
            i += 1;
        }
        proof {
            let after = self.listeners();
            assert forall|k: int| 0 <= k < deliveries@.len() implies before.dom().contains(
                (#[trigger] deliveries@[k]).0,
            ) by {
                assert(ids@.to_set().contains(ids@[k]));
            }
            assert forall|id: ListenerID| #[trigger] before.dom().contains(id) implies exists|k: int|
                0 <= k < deliveries@.len() && (#[trigger] deliveries@[k]).0 == id by {
                assert(ids@.to_set().contains(id));
                let k = choose|k: int| 0 <= k < ids@.len() && ids@[k] == id;
                assert(deliveries@[k].0 == id);
            }
            assert forall|id: ListenerID| #[trigger] before.contains_key(id) implies exists|
                delivery: Delivery,
            |
                {
                    &&& #[trigger] deliveries@.contains((id, delivery))
                    &&& after[id].told() == before[id].told().push(
                        (AssetBatchEvent::Commit, delivery),
                    )
                } by {
                assert(before.dom().contains(id));
                let k = choose|k: int| 0 <= k < deliveries@.len() && (#[trigger] deliveries@[k]).0 == id;
                assert(deliveries@[k] == (id, deliveries@[k].1));
                assert(deliveries@.contains((id, deliveries@[k].1)));
            }
        }
        deliveries
    }

    /// Forgets the listeners whose receiver was found to be gone, and no other.
    pub fn drop_disconnected(&mut self, deliveries: &Vec<(ListenerID, Delivery)>)
        ensures
            final(self).listeners() == old(self).listeners().remove_keys(
                disconnected(deliveries@),
            ),
            forall|id: ListenerID| #[trigger]
                final(self).listeners().contains_key(id) <==> old(self).listeners().contains_key(id)
                    && !deliveries@.contains((id, Delivery::Disconnected)),
            forall|id: ListenerID| #[trigger]
                final(self).listeners().contains_key(id) ==> final(self).listeners()[id] == old(
                    self,
                ).listeners()[id],
            final(self).next_listener() == old(self).next_listener(),
    {
        let mut i: usize = 0;
        assert(self.listeners() =~= old(self).listeners().remove_keys(
            disconnected(deliveries@.take(0)),
        ));
        while i < deliveries.len()
            invariant
                i <= deliveries@.len(),
                self.listeners() == old(self).listeners().remove_keys(
                    disconnected(deliveries@.take(i as int)),
                ),
                self.next_listener() == old(self).next_listener(),
            decreases deliveries@.len() - i,
        {
            let ghost before = disconnected(deliveries@.take(i as int));
            let ghost after = disconnected(deliveries@.take(i + 1));
            let ghost at = deliveries@[i as int];
            proof {
                assert forall|id: ListenerID| #[trigger] after.contains(id) <==> before.contains(id)
                    || at == (id, Delivery::Disconnected) by {
                    if after.contains(id) {
                        let k = choose|k: int|
                            0 <= k < deliveries@.take(i + 1).len() && #[trigger] deliveries@.take(
                                i + 1,
                            )[k] == (id, Delivery::Disconnected);
                        if k < i {
                            assert(deliveries@.take(i as int)[k] == (id, Delivery::Disconnected));
                        }
                    }
                    if before.contains(id) {
                        let k = choose|k: int|
                            0 <= k < deliveries@.take(i as int).len() && #[trigger] deliveries@.take(
                                i as int,
                            )[k] == (id, Delivery::Disconnected);
                        assert(deliveries@.take(i + 1)[k] == (id, Delivery::Disconnected));
                    }
                    if at == (id, Delivery::Disconnected) {
                        assert(deliveries@.take(i + 1)[i as int] == at);
                    }
                }
            }
            if deliveries[i].1 == Delivery::Disconnected {
                self.listeners.remove(&deliveries[i].0);
            }
            assert(self.listeners() =~= old(self).listeners().remove_keys(after));
            i += 1;
        }
        assert(deliveries@.take(i as int) =~= deliveries@);
        proof {
            let before = old(self).listeners();
            assert forall|id: ListenerID| #[trigger] self.listeners().contains_key(id)
                <==> before.contains_key(id) && !deliveries@.contains((id, Delivery::Disconnected)) by {
                law_only_disconnected_forgotten(before, deliveries@, id);
            }
        }
    }

    /// Tells every listener that a batch was committed, once, and forgets those
    /// whose receiver is gone. A listener whose channel is full is kept.
    pub fn notify_listeners(&mut self)
        ensures
            exists|told: Map<ListenerID, Listener>, deliveries: Seq<(ListenerID, Delivery)>|
                {
                    &&& #[trigger] all_told(old(self).listeners(), told, deliveries)
                    &&& final(self).listeners() == told.remove_keys(disconnected(deliveries))
                    &&& forall|i: int|
                        0 <= i < deliveries.len() ==> {
                            &&& told[(#[trigger] deliveries[i]).0].told() == old(
                                self,
                            ).listeners()[deliveries[i].0].told().push(
                                (AssetBatchEvent::Commit, deliveries[i].1),
                            )
                            &&& final(self).listeners().contains_key(deliveries[i].0)
                                <==> deliveries[i].1 != Delivery::Disconnected
                            &&& final(self).listeners().contains_key(deliveries[i].0)
                                ==> final(self).listeners()[deliveries[i].0]
                                == told[deliveries[i].0]
                        }
                    &&& forall|id: ListenerID| #[trigger]
                        old(self).listeners().contains_key(id) ==> exists|i: int|
                            0 <= i < deliveries.len() && (#[trigger] deliveries[i]).0 == id
                },
            forall|id: ListenerID| #[trigger]
                final(self).listeners().contains_key(id) ==> {
                    &&& old(self).listeners().contains_key(id)
                    &&& exists|delivery: Delivery|
                        delivery != Delivery::Disconnected && #[trigger] told_once(
                            old(self).listeners()[id],
                            final(self).listeners()[id],
                            AssetBatchEvent::Commit,
                            delivery,
                        )
                },
            final(self).next_listener() == old(self).next_listener(),
            old(self).numbers_given() ==> final(self).numbers_given(),
    {
        let deliveries = self.send_commit();
        let ghost told = self.listeners();
        self.drop_disconnected(&deliveries);
        proof {
            let before = old(self).listeners();
            assert(all_told(before, told, deliveries@));
            law_each_told_once(before, told, deliveries@);
            assert forall|i: int| 0 <= i < deliveries@.len() implies {
                let id = (#[trigger] deliveries@[i]).0;
                &&& told[id].told() == before[id].told().push(
                    (AssetBatchEvent::Commit, deliveries@[i].1),
                )
                &&& self.listeners().contains_key(id) <==> deliveries@[i].1
                    != Delivery::Disconnected
                &&& self.listeners().contains_key(id) ==> self.listeners()[id] == told[id]
            } by {
                law_listeners_kept(before, told, deliveries@, i);
            }
            assert forall|id: ListenerID| #[trigger] self.listeners().contains_key(id) implies {
                &&& before.contains_key(id)
                &&& exists|delivery: Delivery|
                    delivery != Delivery::Disconnected && #[trigger] told_once(
                        before[id],
                        self.listeners()[id],
                        AssetBatchEvent::Commit,
                        delivery,
                    )
            } by {
                assert(told.contains_key(id) && !disconnected(deliveries@).contains(id));
                assert(before.dom().contains(id));
                let k = choose|k: int| 0 <= k < deliveries@.len() && (#[trigger] deliveries@[k]).0 == id;
                assert(deliveries@[k] == (id, deliveries@[k].1));
                assert(told_once(
                    before[id],
                    self.listeners()[id],
                    AssetBatchEvent::Commit,
                    deliveries@[k].1,
                ));
            }
        }
    }

    /// Takes on a listener, and gives the number by which it is known. Until the
    /// numbers run out and start over, it is one that no other listener has.
    pub fn register_listener(&mut self, listener: Sender<AssetBatchEvent>) -> (id: ListenerID)
        ensures
            id == old(self).next_listener(),
            final(self).next_listener() == (if id == u64::MAX {
                0
            } else {
                (id + 1) as u64
            }),
            final(self).listeners().contains_key(id),
            final(self).listeners()[id].sender() == listener,
            final(self).listeners()[id].registered() == listener,
            final(self).listeners()[id].told().len() == 0,
            final(self).listeners().remove(id) == old(self).listeners().remove(id),
            old(self).numbers_given() ==> !old(self).listeners().contains_key(id)
                && final(self).listeners().remove(id) == old(self).listeners(),
            old(self).numbers_given() && id < u64::MAX ==> final(self).numbers_given(),
    {
        let id = self.id_gen;
        self.id_gen = id.wrapping_add(1);
        self.listeners.insert(id, Listener::new(listener));
        assert(self.listeners().remove(id) =~= old(self).listeners().remove(id));
        assert(old(self).numbers_given() ==> self.listeners().remove(id) =~= old(self).listeners());
        id
    }

    /// Forgets a listener, and gives it back.
    pub fn drop_listener(&mut self, listener: ListenerID) -> (res: Option<Sender<AssetBatchEvent>>)
        ensures
            match res {
                Some(sender) => old(self).listeners().contains_key(listener) && sender == old(
                    self,
                ).listeners()[listener].sender(),
                None => !old(self).listeners().contains_key(listener),
            },
            final(self).listeners() == old(self).listeners().remove(listener),
            final(self).next_listener() == old(self).next_listener(),
            old(self).numbers_given() ==> final(self).numbers_given(),
    {
        match self.listeners.remove(&listener) {
            Some(listener) => Some(listener.into_sender()),
            None => None,
        }
    }
}

}
