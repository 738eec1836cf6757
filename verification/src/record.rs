//! Recording what a batch of changes comes to in the change log.
use vstd::prelude::*;

use crate::affected::affected;
use crate::asset::{AssetUuid, Key};
use crate::change::{
    build_change_record, events_model, keys_of, latest_change, lemma_log_event, lemma_log_events,
    log_event, log_events, log_in_order, ChangeBatch, ChangeEvent, EventModel,
};
use crate::hub::AssetHub;
use crate::message::{Error, Field, RecordModel};
use crate::transaction::{RwTransaction, Store};
use crate::walk::{event_of, finding, Finding, Progress};

verus! {

/// What is found out about each of a list of assets, up to the first about which
/// nothing is.
pub open spec fn findings(
    metadata: Map<Key, Field<RecordModel>>,
    assets: Seq<Key>,
    steps: nat,
) -> Progress<Seq<Finding>>
    decreases assets.len(),
{
    if assets.len() == 0 {
        Progress::Done(Seq::empty())
    } else {
        match findings(metadata, assets.drop_last(), steps) {
            Progress::Pending => Progress::Pending,
            Progress::Aborted => Progress::Aborted,
            Progress::Failed(e) => Progress::Failed(e),
            Progress::Done(before) => match finding(metadata, assets.last(), steps) {
                Progress::Pending => Progress::Pending,
                Progress::Aborted => Progress::Aborted,
                Progress::Failed(e) => Progress::Failed(e),
                Progress::Done(found) => Progress::Done(before.push(found)),
            },
        }
    }
}

/// The events that findings about assets lead to: one for each asset, in order.
pub open spec fn events_of(assets: Seq<Key>, found: Seq<Finding>) -> Seq<EventModel> {
    Seq::new(assets.len(), |i: int| event_of(assets[i], found[i]))
}

/// What happened to each of a list of assets.
pub open spec fn asset_events(
    metadata: Map<Key, Field<RecordModel>>,
    assets: Seq<Key>,
    steps: nat,
) -> Progress<Seq<EventModel>> {
    match findings(metadata, assets, steps) {
        Progress::Pending => Progress::Pending,
        Progress::Aborted => Progress::Aborted,
        Progress::Failed(e) => Progress::Failed(e),
        Progress::Done(found) => Progress::Done(events_of(assets, found)),
    }
}

/// The events that a batch leads to: one for each asset that it affects, in the
/// order in which these are found. No walk over build dependencies may take more
/// than `steps` steps.
pub open spec fn batch_events(store: Store, batch: Seq<Key>, steps: nat) -> Progress<
    Seq<EventModel>,
> {
    match affected(store.dependees, batch) {
        Err(e) => Progress::Failed(e),
        Ok(assets) => match asset_events(store.metadata, assets, steps) {
            Progress::Pending => Progress::Pending,
            Progress::Aborted => Progress::Aborted,
            Progress::Failed(e) => Progress::Failed(e),
            Progress::Done(events) => if latest_change(store.changes) + events.len() <= u64::MAX {
                Progress::Done(events)
            } else {
                Progress::Aborted
            },
        },
    }
}

/// Whether a batch can be gone through to the end, or to something that cannot be
/// read: each walk over build dependencies is done after `steps` steps and meets
/// names alone, and the change log has numbers left for the events.
pub open spec fn batch_ends(store: Store, batch: Seq<Key>, steps: nat) -> bool {
    match affected(store.dependees, batch) {
        Err(_) => true,
        Ok(assets) => match findings(store.metadata, assets, steps) {
            Progress::Pending => false,
            Progress::Aborted => false,
            Progress::Failed(_) => true,
            Progress::Done(_) => latest_change(store.changes) + assets.len() <= u64::MAX,
        },
    }
}

/// The tables with `events` in the change log.
pub open spec fn recorded(store: Store, events: Seq<EventModel>) -> Store {
    Store { changes: log_events(store.changes, events), ..store }
}

/// The model of a list of events that may not have come about.
pub open spec fn progress_model(res: Progress<Vec<ChangeEvent>>) -> Progress<Seq<EventModel>> {
    match res {
        Progress::Pending => Progress::Pending,
        Progress::Aborted => Progress::Aborted,
        Progress::Failed(e) => Progress::Failed(e),
        Progress::Done(events) => Progress::Done(events_model(events@)),
    }
}

/// Where one of the first assets stops, all of them do.
proof fn lemma_findings_stop(
    metadata: Map<Key, Field<RecordModel>>,
    assets: Seq<Key>,
    steps: nat,
    n: int,
)
    requires
        0 <= n <= assets.len(),
        !(findings(metadata, assets.take(n), steps) is Done),
    ensures
        findings(metadata, assets, steps) == findings(metadata, assets.take(n), steps),
    decreases assets.len() - n,
{
    if n == assets.len() {
        assert(assets.take(n) =~= assets);
    } else {
        assert(assets.take(n + 1).drop_last() =~= assets.take(n));
        lemma_findings_stop(metadata, assets, steps, n + 1);
    }
}

/// Adds an event to the change log, under the next number.
pub fn add_asset_changelog_entry(hub: &AssetHub, txn: &mut RwTransaction, change: &ChangeEvent)
    requires
        old(txn).wf(),
        latest_change(old(txn)@.changes) < u64::MAX,
    ensures
        final(txn).wf(),
        final(txn)@ == (Store {
            changes: log_event(old(txn)@.changes, change@),
            ..old(txn)@
        }),
{
    proof {
        txn.lemma_wf();
        lemma_log_event(txn@.changes, change@);
    }
    let last_seq = hub.get_latest_asset_change(txn) + 1;
    txn.append_change(build_change_record(last_seq, change));
}

impl AssetHub {
    /// What happened to each of a list of assets.
    fn asset_events(&self, txn: &RwTransaction, assets: &Vec<AssetUuid>, steps: u64) -> (res:
        Progress<Vec<ChangeEvent>>)
        requires
            txn.wf(),
        ensures
            progress_model(res) == asset_events(txn@.metadata, keys_of(assets@), steps as nat),
    {
        let ghost metadata = txn@.metadata;
        let ghost keys = keys_of(assets@);
        let ghost mut found: Seq<Finding> = Seq::empty();
        let mut events: Vec<ChangeEvent> = Vec::new();
        let mut i: usize = 0;
        assert(keys.take(0) =~= Seq::<Key>::empty());
        assert(events_model(events@) =~= events_of(keys.take(0), found));
        while i < assets.len()
            invariant
                txn.wf(),
                i <= assets@.len(),
                metadata == txn@.metadata,
                keys == keys_of(assets@),
                found.len() == i,
                findings(metadata, keys.take(i as int), steps as nat) == Progress::Done(found),
                events_model(events@) == events_of(keys.take(i as int), found),
            decreases assets@.len() - i,
        {
            let ghost before = events@;
            assert(keys.take(i + 1).drop_last() =~= keys.take(i as int));
            assert(keys.take(i + 1).last() == assets@[i as int]@);
            match self.asset_event(txn, &assets[i], steps) {
                Progress::Pending => {
                    proof {
                        lemma_findings_stop(metadata, keys, steps as nat, i + 1);
                    }
                    return Progress::Pending;
                },
                Progress::Aborted => {
                    proof {
                        lemma_findings_stop(metadata, keys, steps as nat, i + 1);
                    }
                    return Progress::Aborted;
                },
                Progress::Failed(e) => {
                    proof {
                        lemma_findings_stop(metadata, keys, steps as nat, i + 1);
                    }
                    return Progress::Failed(e);
                },
                Progress::Done(event) => {
                    events.push(event);
                    proof {
                        let last = finding(metadata, assets@[i as int]@, steps as nat)->Done_0;
                        found = found.push(last);
                        assert(events_model(events@) =~= events_model(before).push(event@));
                        assert(events_model(events@) =~= events_of(keys.take(i + 1), found));
                    }
                },
            }
            i += 1;
        }
        assert(keys.take(i as int) =~= keys);
        Progress::Done(events)
    }

    /// Records what a batch of changes comes to in the change log, and says
    /// whether it comes to anything. A walk over build dependencies that is not
    /// done after `steps` steps is given up; then, as where something cannot be
    /// read or gone on with, the tables stay as they are.
    pub fn add_changes_within(
        &self,
        txn: &mut RwTransaction,
        change_batch: ChangeBatch,
        steps: u64,
    ) -> (res: Progress<bool>)
        requires
            old(txn).wf(),
        ensures
            final(txn).wf(),
            match batch_events(old(txn)@, change_batch@, steps as nat) {
                Progress::Pending => res is Pending && final(txn)@ == old(txn)@,
                Progress::Aborted => res is Aborted && final(txn)@ == old(txn)@,
                Progress::Failed(e) => res == Progress::<bool>::Failed(e) && final(txn)@ == old(
                    txn,
                )@,
                Progress::Done(events) => res == Progress::Done(events.len() > 0) && final(txn)@
                    == recorded(old(txn)@, events),
            },
    {
        let assets = match self.affected_assets(txn, change_batch.into_changes()) {
            Ok(assets) => assets,
            Err(e) => {
                return Progress::Failed(e);
            },
        };
        let events = match self.asset_events(txn, &assets, steps) {
            Progress::Pending => {
                return Progress::Pending;
            },
            Progress::Aborted => {
                return Progress::Aborted;
            },
            Progress::Failed(e) => {
                return Progress::Failed(e);
            },
            Progress::Done(events) => events,
        };
        let last_seq = self.get_latest_asset_change(txn);
        if (events.len() as u128) > (u64::MAX - last_seq) as u128 {
            return Progress::Aborted;
        }
        let ghost log = txn@.changes;
        let ghost model = events_model(events@);
        let mut i: usize = 0;
        proof {
            txn.lemma_wf();
            assert(model.take(0) =~= Seq::<EventModel>::empty());
            lemma_log_events(log, model.take(0));
        }
        while i < events.len()
            invariant
                i <= events@.len(),
                txn.wf(),
                model == events_model(events@),
                log == old(txn)@.changes,
                log_in_order(log),
                latest_change(log) + events@.len() <= u64::MAX,
                txn@ == recorded(old(txn)@, model.take(i as int)),
            decreases events@.len() - i,
        {
            proof {
                lemma_log_events(log, model.take(i as int));
                lemma_log_events(log, model.take(i + 1));
                assert(model.take(i + 1).drop_last() =~= model.take(i as int));
                assert(model.take(i + 1).last() == events@[i as int]@);
            }
            add_asset_changelog_entry(self, txn, &events[i]);
            i += 1;
        }
        assert(model.take(i as int) =~= model);
        Progress::Done(events.len() > 0)
    }

    /// Records what a batch of changes comes to in the change log, and says
    /// whether it comes to anything.
    pub fn add_changes(&self, txn: &mut RwTransaction, change_batch: ChangeBatch) -> (res: Result<
        bool,
        Error,
    >)
        requires
            old(txn).wf(),
            batch_ends(old(txn)@, change_batch@, u64::MAX as nat),
        ensures
            final(txn).wf(),
            match batch_events(old(txn)@, change_batch@, u64::MAX as nat) {
                Progress::Failed(e) => res == Result::<bool, Error>::Err(e) && final(txn)@ == old(
                    txn,
                )@,
                Progress::Done(events) => res == Result::<bool, Error>::Ok(events.len() > 0)
                    && final(txn)@ == recorded(old(txn)@, events),
                _ => true,
            },
    {
        match self.add_changes_within(txn, change_batch, u64::MAX) {
            Progress::Failed(e) => Err(e),
            Progress::Done(any) => Ok(any),
            _ => vstd::pervasive::unreached(),
        }
    }
}

}
