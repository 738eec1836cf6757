//! What comes of a batch of changes: which assets it affects, which events it
//! leads to, and what the change log holds afterwards.
use std::collections::hash_map::DefaultHasher;

use vstd::bytes::{
    lemma_auto_spec_u64_to_from_le_bytes, spec_u64_from_le_bytes, spec_u64_to_le_bytes,
};
use vstd::prelude::*;
use vstd::std_specs::hash::DefaultHasherAdditionalSpecFns;

use crate::affected::{affected, lemma_unexplored, spread, unexplored};
use crate::asset::{AssetSource, Key, MetadataModel};
use crate::change::{
    change_record, follows, latest_change, lemma_log_events, log_event, log_events, log_in_order,
    ChangeRecordModel, EventModel, LoggedModel,
};
use crate::index::{dependees_of, link_all, unlink_all};
use crate::index_laws::{deps, in_step, listed, pair_in_step};
use crate::message::{ArtifactModel, Error, Field, RecordModel};
use crate::record::{batch_ends, batch_events, events_of, findings, recorded};
use crate::transaction::{IndexModel, Store};
use crate::update::{
    all_uuids, deps_to_remove, imported_record, known, not_in, ref_keys,
    remove_outcome, stored_keys, update_outcome,
};
use crate::walk::{asset_event, digest, finding, hash_writes, walk, Progress};
use crate::walk_laws::{artifact_at, built_from, is_dep_path, law_walk_visits_all};

verus! {

/// Whether each asset on a path is a dependee of the one before it.
pub open spec fn is_path(index: IndexModel, path: Seq<Key>) -> bool {
    forall|i: int|
        0 <= i < path.len() - 1 ==> (dependees_of(index, #[trigger] path[i]) matches Ok(list)
            && list.contains(path[i + 1]))
}

/// Whether a path leads from one of `start` to `id`.
pub open spec fn leads_to(index: IndexModel, start: Seq<Key>, id: Key, path: Seq<Key>) -> bool {
    &&& path.len() > 0
    &&& start.contains(path.first())
    &&& path.last() == id
    &&& is_path(index, path)
}

/// Whether `id` is one of `start`, or a dependee of one, or a dependee of that,
/// and so on.
pub open spec fn reached(index: IndexModel, start: Seq<Key>, id: Key) -> bool {
    exists|path: Seq<Key>| leads_to(index, start, id, path)
}

/// What a list starts with is reached from it.
proof fn lemma_reached_start(index: IndexModel, start: Seq<Key>, id: Key)
    requires
        start.contains(id),
    ensures
        reached(index, start, id),
{
    assert(leads_to(index, start, id, seq![id]));
}

/// A dependee of something that is reached is reached.
proof fn lemma_reached_step(index: IndexModel, start: Seq<Key>, id: Key, dependee: Key)
    requires
        reached(index, start, id),
        dependees_of(index, id) matches Ok(list) && list.contains(dependee),
    ensures
        reached(index, start, dependee),
{
    let path = choose|path: Seq<Key>| leads_to(index, start, id, path);
    let longer = path.push(dependee);
    assert forall|i: int| 0 <= i < longer.len() - 1 implies (dependees_of(
        index,
        #[trigger] longer[i],
    ) matches Ok(list) && list.contains(longer[i + 1])) by {
        if i < path.len() - 1 {
            assert(longer[i] == path[i]);
            assert(longer[i + 1] == path[i + 1]);
        }
    }
    assert(longer.first() == path.first());
    assert(leads_to(index, start, dependee, longer));
}

/// What is reached from the rest of a queue and the dependees of its first asset
/// is reached from the queue.
proof fn lemma_reached_from_queue(index: IndexModel, queue: Seq<Key>, list: Seq<Key>, id: Key)
    requires
        queue.len() > 0,
        dependees_of(index, queue.first()) == Result::<Seq<Key>, Error>::Ok(list),
        reached(index, queue.drop_first() + list, id),
    ensures
        reached(index, queue, id),
{
    let start = queue.drop_first() + list;
    let path = choose|path: Seq<Key>| leads_to(index, start, id, path);
    let i = choose|i: int| 0 <= i < start.len() && start[i] == path.first();
    if i < queue.len() - 1 {
        assert(queue[i + 1] == path.first());
        assert(leads_to(index, queue, id, path));
    } else {
        assert(list[i - (queue.len() - 1)] == path.first());
        let longer = seq![queue.first()] + path;
        assert(queue[0] == longer.first());
        assert forall|j: int| 0 <= j < longer.len() - 1 implies (dependees_of(
            index,
            #[trigger] longer[j],
        ) matches Ok(l) && l.contains(longer[j + 1])) by {
            if j > 0 {
                assert(longer[j] == path[j - 1]);
                assert(longer[j + 1] == path[j]);
            } else {
                assert(longer[1] == path[0]);
            }
        }
        assert(longer.last() == path.last());
        assert(leads_to(index, queue, id, longer));
    }
}

/// Whether the dependees of each of `found` can be read and are in `found` or in
/// `queue`.
spec fn explored(index: IndexModel, queue: Seq<Key>, found: Seq<Key>) -> bool {
    forall|i: int|
        0 <= i < found.len() ==> (dependees_of(index, #[trigger] found[i]) matches Ok(list)
            && forall|x: Key| #[trigger] list.contains(x) ==> found.contains(x) || queue.contains(x))
}

/// What a search finds.
proof fn lemma_spread(index: IndexModel, queue: Seq<Key>, found: Seq<Key>)
    requires
        index.dom().finite(),
        found.no_duplicates(),
        explored(index, queue, found),
    ensures
        match spread(index, queue, found) {
            Ok(all) => {
                &&& all.no_duplicates()
                &&& explored(index, Seq::empty(), all)
                &&& forall|x: Key| #[trigger] found.contains(x) ==> all.contains(x)
                &&& forall|x: Key| #[trigger] queue.contains(x) ==> all.contains(x)
                &&& forall|x: Key| #[trigger]
                    all.contains(x) ==> found.contains(x) || reached(index, queue, x)
            },
            Err(e) => exists|x: Key| #[trigger]
                reached(index, queue, x) && dependees_of(index, x) == Result::<Seq<Key>, Error>::Err(
                    e,
                ),
        },
    decreases unexplored(index, found).len(), queue.len(),
{
    if queue.len() == 0 {
        assert(queue =~= Seq::<Key>::empty());
    } else {
        let id = queue.first();
        let rest = queue.drop_first();
        assert(queue[0] == id);
        assert(queue.contains(id));
        assert forall|x: Key| #[trigger] queue.contains(x) implies x == id || rest.contains(x) by {
            let i = choose|i: int| 0 <= i < queue.len() && queue[i] == x;
            if i > 0 {
                assert(rest[i - 1] == x);
            }
        }
        if found.contains(id) {
            assert forall|i: int| 0 <= i < found.len() implies (dependees_of(
                index,
                #[trigger] found[i],
            ) matches Ok(list) && forall|x: Key| #[trigger]
                list.contains(x) ==> found.contains(x) || rest.contains(x)) by {
            }
            lemma_spread(index, rest, found);
            assert forall|x: Key| #[trigger] reached(index, rest, x) implies reached(
                index,
                queue,
                x,
            ) by {
                let path = choose|path: Seq<Key>| leads_to(index, rest, x, path);
                let i = choose|i: int| 0 <= i < rest.len() && rest[i] == path.first();
                assert(queue[i + 1] == path.first());
                assert(leads_to(index, queue, x, path));
            }
        } else {
            lemma_reached_start(index, queue, id);
            if let Ok(list) = dependees_of(index, id) {
                let next = rest + list;
                let more = found.push(id);
                lemma_unexplored(index, found, id);
                assert forall|x: Key| #[trigger] more.contains(x) <==> found.contains(x) || x
                    == id by {
                    if found.contains(x) {
                        let i = choose|i: int| 0 <= i < found.len() && found[i] == x;
                        assert(more[i] == x);
                    }
                    assert(more[found.len() as int] == id);
                }
                assert forall|x: Key| #[trigger] next.contains(x) <==> rest.contains(x)
                    || list.contains(x) by {
                    if rest.contains(x) {
                        let i = choose|i: int| 0 <= i < rest.len() && rest[i] == x;
                        assert(next[i] == x);
                    }
                    if list.contains(x) {
                        let i = choose|i: int| 0 <= i < list.len() && list[i] == x;
                        assert(next[rest.len() + i] == x);
                    }
                }
                assert(explored(index, next, more)) by {
                    assert forall|i: int| 0 <= i < more.len() implies (dependees_of(
                        index,
                        #[trigger] more[i],
                    ) matches Ok(l) && forall|x: Key| #[trigger]
                        l.contains(x) ==> more.contains(x) || next.contains(x)) by {
                        if i < found.len() {
                            assert(more[i] == found[i]);
                        }
                    }
                }
                lemma_spread(index, next, more);
                assert forall|x: Key| #[trigger] reached(index, next, x) implies reached(
                    index,
                    queue,
                    x,
                ) by {
                    lemma_reached_from_queue(index, queue, list, x);
                }
                if let Ok(all) = spread(index, next, more) {
                    assert forall|x: Key| found.contains(x) || queue.contains(x) implies #[trigger]
                    all.contains(x) by {
                        assert(more.contains(x) || next.contains(x));
                    }
                }
            }
        }
    }
}

/// Everything that is reached is in a list that holds the start and with each
/// asset its dependees.
proof fn lemma_reached_in(index: IndexModel, start: Seq<Key>, all: Seq<Key>, path: Seq<Key>, n: int)
    requires
        explored(index, Seq::empty(), all),
        forall|x: Key| #[trigger] start.contains(x) ==> all.contains(x),
        path.len() > 0,
        start.contains(path.first()),
        is_path(index, path),
        0 <= n < path.len(),
    ensures
        all.contains(path[n]),
    decreases n,
{
    if n > 0 {
        lemma_reached_in(index, start, all, path, n - 1);
        let i = choose|i: int| 0 <= i < all.len() && all[i] == path[n - 1];
        assert(dependees_of(index, all[i]) is Ok);
        assert(dependees_of(index, path[n - 1])->Ok_0.contains(path[n - 1 + 1]));
        assert(!Seq::<Key>::empty().contains(path[n]));
    }
}

/// A batch affects the assets in it, their dependees, the dependees of these, and
/// so on: exactly those, each once. It fails just when the dependees of one of
/// them cannot be read, and says why one of them cannot.
pub proof fn law_affected(index: IndexModel, batch: Seq<Key>)
    requires
        index.dom().finite(),
    ensures
        match affected(index, batch) {
            Ok(assets) => {
                &&& assets.no_duplicates()
                &&& forall|id: Key| #[trigger] assets.contains(id) <==> reached(index, batch, id)
                &&& forall|id: Key| #[trigger]
                    reached(index, batch, id) ==> dependees_of(index, id) is Ok
            },
            Err(e) => exists|id: Key| #[trigger]
                reached(index, batch, id) && dependees_of(index, id) == Result::<
                    Seq<Key>,
                    Error,
                >::Err(e),
        },
{
    lemma_spread(index, batch, Seq::empty());
    if let Ok(assets) = affected(index, batch) {
        assert forall|id: Key| #[trigger] reached(index, batch, id) implies assets.contains(id)
            && dependees_of(index, id) is Ok by {
            let path = choose|path: Seq<Key>| leads_to(index, batch, id, path);
            lemma_reached_in(index, batch, assets, path, path.len() - 1);
            let i = choose|i: int| 0 <= i < assets.len() && assets[i] == id;
            assert(dependees_of(index, assets[i]) is Ok);
        }
        assert forall|id: Key| #[trigger] assets.contains(id) implies reached(
            index,
            batch,
            id,
        ) by {
            assert(!Seq::<Key>::empty().contains(id));
        }
    }
}

/// Where the index is in step with the records, a change to an asset reaches
/// every asset that has a build dependency on it.
pub proof fn law_change_reaches_dependees(store: Store, batch: Seq<Key>, changed: Key, built: Key)
    requires
        in_step(store),
        reached(store.dependees, batch, changed),
        deps(store, built).contains(changed),
    ensures
        reached(store.dependees, batch, built),
{
    assert(pair_in_step(store, built, changed));
    assert(listed(store.dependees, changed).contains(built));
    lemma_reached_step(store.dependees, batch, changed, built);
}

/// The asset that an event is about.
pub open spec fn event_asset(event: EventModel) -> Key {
    match event {
        EventModel::ContentUpdate { id, .. } => id,
        EventModel::Remove { id } => id,
    }
}

/// Whether an event says what the records say: an asset without a record is gone,
/// and one with a record has the hash of its artifact as its import hash, or an
/// empty one if it has no artifact.
pub open spec fn event_fits(metadata: Map<Key, Field<RecordModel>>, event: EventModel) -> bool {
    match event {
        EventModel::Remove { id } => !metadata.contains_key(id),
        EventModel::ContentUpdate { id, import_hash, .. } => {
            &&& metadata.contains_key(id)
            &&& metadata[id] matches Ok(record)
            &&& import_hash == Some(
                match record.latest_artifact {
                    Ok(ArtifactModel::Id(Ok(hash))) => hash,
                    _ => Seq::<u8>::empty(),
                },
            )
        },
    }
}

/// What is found out about a list of assets is what is found out about each.
proof fn lemma_findings(metadata: Map<Key, Field<RecordModel>>, assets: Seq<Key>, steps: nat)
    ensures
        findings(metadata, assets, steps) matches Progress::Done(found) ==> {
            &&& found.len() == assets.len()
            &&& forall|i: int|
                0 <= i < assets.len() ==> finding(metadata, #[trigger] assets[i], steps)
                    == Progress::Done(found[i])
        },
    decreases assets.len(),
{
    if assets.len() > 0 {
        let init = assets.drop_last();
        lemma_findings(metadata, init, steps);
        if let Progress::Done(found) = findings(metadata, assets, steps) {
            assert forall|i: int| 0 <= i < assets.len() implies finding(
                metadata,
                #[trigger] assets[i],
                steps,
            ) == Progress::Done(found[i]) by {
                if i < init.len() {
                    assert(init[i] == assets[i]);
                }
            }
        }
    }
}

/// A batch leads to one event for each asset that it reaches, to no other, and
/// each says what the records say. It leads to none just when it is empty.
pub proof fn law_one_event_each(store: Store, batch: Seq<Key>, steps: nat, events: Seq<EventModel>)
    requires
        store.dependees.dom().finite(),
        batch_events(store, batch, steps) == Progress::Done(events),
    ensures
        forall|i: int|
            0 <= i < events.len() ==> event_fits(store.metadata, #[trigger] events[i]) && reached(
                store.dependees,
                batch,
                event_asset(events[i]),
            ),
        forall|id: Key| #[trigger]
            reached(store.dependees, batch, id) ==> exists|i: int|
                0 <= i < events.len() && event_asset(#[trigger] events[i]) == id,
        forall|i: int, j: int|
            0 <= i < j < events.len() ==> event_asset(#[trigger] events[i]) != event_asset(
                #[trigger] events[j],
            ),
        events.len() == 0 <==> batch.len() == 0,
{
    let assets = affected(store.dependees, batch)->Ok_0;
    law_affected(store.dependees, batch);
    lemma_findings(store.metadata, assets, steps);
    let found = findings(store.metadata, assets, steps)->Done_0;
    assert(events == events_of(assets, found));
    assert forall|i: int| 0 <= i < events.len() implies event_asset(#[trigger] events[i])
        == assets[i] && event_fits(store.metadata, events[i]) by {
        assert(finding(store.metadata, assets[i], steps) == Progress::Done(found[i]));
    }
    assert forall|i: int| 0 <= i < events.len() implies reached(
        store.dependees,
        batch,
        event_asset(#[trigger] events[i]),
    ) by {
        assert(assets.contains(assets[i]));
    }
    assert forall|id: Key| #[trigger] reached(store.dependees, batch, id) implies exists|i: int|
        0 <= i < events.len() && event_asset(#[trigger] events[i]) == id by {
        assert(assets.contains(id));
        let i = choose|i: int| 0 <= i < assets.len() && assets[i] == id;
        assert(event_asset(events[i]) == id);
    }
    if batch.len() > 0 {
        assert(batch.contains(batch[0]));
        lemma_reached_start(store.dependees, batch, batch[0]);
        assert(assets.contains(batch[0]));
    }
    if events.len() > 0 {
        assert(reached(store.dependees, batch, event_asset(events[0])));
        let path = choose|path: Seq<Key>|
            leads_to(store.dependees, batch, event_asset(events[0]), path);
        assert(batch.contains(path.first()));
    }
}

/// Whether what is logged says what happened: to the same asset, named by the same
/// bytes, with the same hashes. A build dependency hash that is missing is empty.
pub open spec fn says(entry: LoggedModel, event: EventModel) -> bool {
    match event {
        EventModel::Remove { id } => entry == (LoggedModel::Remove { id }),
        EventModel::ContentUpdate { id, import_hash, build_dep_hash } => {
            &&& entry matches LoggedModel::ContentUpdate {
                id: logged_id,
                import_hash: logged_hash,
                build_dep_hash: logged_digest,
            }
            &&& logged_id == id
            &&& logged_hash == import_hash
            &&& build_dep_hash matches Some(hash) ==> logged_digest == hash
            &&& build_dep_hash is None ==> logged_digest.len() == 0
        },
    }
}

/// To record a batch keeps what the log held, puts the events behind it under
/// consecutive numbers, which are also their keys, and leaves the records and
/// the index alone.
pub proof fn law_log_grows(store: Store, events: Seq<EventModel>)
    requires
        log_in_order(store.changes),
        latest_change(store.changes) + events.len() <= u64::MAX,
    ensures
        ({
            let after = recorded(store, events);
            let before = store.changes;
            &&& after.metadata == store.metadata
            &&& after.dependees == store.dependees
            &&& log_in_order(after.changes)
            &&& after.changes.len() == before.len() + events.len()
            &&& after.changes.take(before.len() as int) == before
            &&& latest_change(after.changes) == latest_change(before) + events.len()
            &&& forall|i: int|
                0 <= i < events.len() ==> {
                    let num = (latest_change(before) + 1 + i) as u64;
                    let entry = #[trigger] after.changes[before.len() + i];
                    &&& entry.entry matches Ok(found) && found.num == num && says(
                        found.event,
                        events[i],
                    )
                    &&& entry.key == spec_u64_to_le_bytes(num)
                    &&& spec_u64_from_le_bytes(entry.key) == num
                }
        }),
{
    lemma_auto_spec_u64_to_from_le_bytes();
    lemma_log_events(store.changes, events);
    let after = recorded(store, events);
    let before = store.changes;
    assert(after.changes.take(before.len() as int) =~= before);
    assert forall|i: int| 0 <= i < events.len() implies {
        let num = (latest_change(before) + 1 + i) as u64;
        let entry = #[trigger] after.changes[before.len() + i];
        &&& entry.entry matches Ok(found) && found.num == num && says(found.event, events[i])
        &&& entry.key == spec_u64_to_le_bytes(num)
        &&& spec_u64_from_le_bytes(entry.key) == num
    } by {
        let num = (latest_change(before) + 1 + i) as u64;
        assert(after.changes[before.len() + i] == change_record(num, events[i]));
        assert(spec_u64_from_le_bytes(spec_u64_to_le_bytes(num)) == num);
    }
}

/// To record an empty batch changes nothing.
pub proof fn law_empty_batch(store: Store, steps: nat)
    requires
        store.dependees.dom().finite(),
    ensures
        batch_events(store, Seq::empty(), steps) == Progress::Done(Seq::<EventModel>::empty()),
        recorded(store, Seq::empty()) == store,
{
    assert(events_of(Seq::empty(), Seq::empty()) =~= Seq::<EventModel>::empty());
    assert(log_events(store.changes, Seq::empty()) =~= store.changes);
}

proof fn lemma_link_all_finite(index: IndexModel, deps: Seq<Key>, id: Key)
    requires
        index.dom().finite(),
    ensures
        link_all(index, deps, id).index.dom().finite(),
    decreases deps.len(),
{
    if deps.len() > 0 {
        lemma_link_all_finite(index, deps.drop_last(), id);
    }
}

proof fn lemma_unlink_all_finite(index: IndexModel, deps: Seq<Key>, id: Key)
    requires
        index.dom().finite(),
    ensures
        unlink_all(index, deps, id).index.dom().finite(),
    decreases deps.len(),
{
    if deps.len() > 0 {
        lemma_unlink_all_finite(index, deps.drop_last(), id);
    }
}

/// What is noted in a batch gets its event.
proof fn lemma_noted_gets_event(
    store: Store,
    batch: Seq<Key>,
    steps: nat,
    events: Seq<EventModel>,
    id: Key,
)
    requires
        store.dependees.dom().finite(),
        batch_events(store, batch, steps) == Progress::Done(events),
        batch.contains(id),
    ensures
        exists|i: int|
            0 <= i < events.len() && event_asset(#[trigger] events[i]) == id && event_fits(
                store.metadata,
                events[i],
            ),
{
    law_one_event_each(store, batch, steps, events);
    lemma_reached_start(store.dependees, batch, id);
    let i = choose|i: int| 0 <= i < events.len() && event_asset(#[trigger] events[i]) == id;
    assert(event_fits(store.metadata, events[i]));
}

/// An imported asset whose artifact is new gets an event that says so, with the
/// hash of the new artifact.
pub proof fn law_update_is_recorded(
    store: Store,
    import_hash: u64,
    metadata: MetadataModel,
    source: AssetSource,
    batch: Seq<Key>,
    steps: nat,
    events: Seq<EventModel>,
)
    requires
        store.dependees.dom().finite(),
        update_outcome(store, import_hash, metadata, source, batch).result is Ok,
        artifact_at(store.metadata, metadata.id) != Some(spec_u64_to_le_bytes(import_hash)),
        ({
            let updated = update_outcome(store, import_hash, metadata, source, batch);
            batch_events(updated.store, updated.batch, steps) == Progress::Done(events)
        }),
    ensures
        exists|i: int|
            0 <= i < events.len() && (#[trigger] events[i] matches EventModel::ContentUpdate {
                id,
                import_hash: hash,
                ..
            } && id == metadata.id && hash == Some(spec_u64_to_le_bytes(import_hash))),
{
    let updated = update_outcome(store, import_hash, metadata, source, batch);
    let before = stored_keys(known(store, metadata.id)->Ok_0.deps);
    let after = ref_keys(metadata.build_deps);
    lemma_link_all_finite(store.dependees, not_in(after, before), metadata.id);
    lemma_unlink_all_finite(
        link_all(store.dependees, not_in(after, before), metadata.id).index,
        not_in(before, after),
        metadata.id,
    );
    assert(updated.batch[batch.len() as int] == metadata.id);
    assert(updated.batch.contains(metadata.id));
    lemma_noted_gets_event(updated.store, updated.batch, steps, events, metadata.id);
    let i = choose|i: int|
        0 <= i < events.len() && event_asset(#[trigger] events[i]) == metadata.id && event_fits(
            updated.store.metadata,
            events[i],
        );
    assert(imported_record(import_hash, metadata, source).latest_artifact == Field::<
        ArtifactModel,
    >::Ok(ArtifactModel::Id(Ok(spec_u64_to_le_bytes(import_hash)))));
    assert(events[i] is ContentUpdate);
}

/// A removed asset gets an event that says that it is gone.
pub proof fn law_remove_is_recorded(
    store: Store,
    id: Key,
    batch: Seq<Key>,
    steps: nat,
    events: Seq<EventModel>,
)
    requires
        store.dependees.dom().finite(),
        store.metadata.contains_key(id),
        remove_outcome(store, id, batch).result is Ok,
        ({
            let removed = remove_outcome(store, id, batch);
            batch_events(removed.store, removed.batch, steps) == Progress::Done(events)
        }),
    ensures
        events.contains(EventModel::Remove { id }),
{
    let removed = remove_outcome(store, id, batch);
    lemma_unlink_all_finite(store.dependees, stored_keys(deps_to_remove(store, id)->Ok_0), id);
    assert(removed.batch[batch.len() as int] == id);
    assert(removed.batch.contains(id));
    lemma_noted_gets_event(removed.store, removed.batch, steps, events, id);
    let i = choose|i: int|
        0 <= i < events.len() && event_asset(#[trigger] events[i]) == id && event_fits(
            removed.store.metadata,
            events[i],
        );
    assert(events[i] == EventModel::Remove { id });
}

/// Where the index is in step with the records, an asset that has a build
/// dependency on one that is noted in the batch gets its event too.
pub proof fn law_dependees_are_recorded(
    store: Store,
    batch: Seq<Key>,
    steps: nat,
    events: Seq<EventModel>,
    changed: Key,
    built: Key,
)
    requires
        store.dependees.dom().finite(),
        in_step(store),
        batch.contains(changed),
        deps(store, built).contains(changed),
        batch_events(store, batch, steps) == Progress::Done(events),
    ensures
        exists|i: int|
            0 <= i < events.len() && event_asset(#[trigger] events[i]) == built && event_fits(
                store.metadata,
                events[i],
            ),
{
    lemma_reached_start(store.dependees, batch, changed);
    law_change_reaches_dependees(store, batch, changed, built);
    law_one_event_each(store, batch, steps, events);
    let i = choose|i: int| 0 <= i < events.len() && event_asset(#[trigger] events[i]) == built;
    assert(event_fits(store.metadata, events[i]));
}

/// To record events leaves tables that are in step in step.
pub proof fn law_record_keeps_in_step(store: Store, events: Seq<EventModel>)
    requires
        in_step(store),
    ensures
        in_step(recorded(store, events)),
{
    let after = recorded(store, events);
    assert forall|a: Key| #[trigger] after.metadata.contains_key(a) implies (deps_to_remove(
        after,
        a,
    ) matches Ok(refs) && all_uuids(refs)) by {
        assert(store.metadata.contains_key(a));
        assert(deps_to_remove(after, a) == deps_to_remove(store, a));
    }
    assert forall|a: Key, d: Key| pair_in_step(after, a, d) by {
        assert(pair_in_step(store, a, d));
        assert(deps(after, a) == deps(store, a));
    }
}

/// An entry of the log has its number as its key, in eight little-endian bytes, and
/// says what happened.
pub proof fn law_entry_says(num: u64, event: EventModel)
    ensures
        change_record(num, event).key == spec_u64_to_le_bytes(num),
        change_record(num, event).key.len() == 8,
        spec_u64_from_le_bytes(change_record(num, event).key) == num,
        change_record(num, event).entry matches Ok(entry) && entry.num == num && says(
            entry.event,
            event,
        ),
{
    lemma_auto_spec_u64_to_from_le_bytes();
    assert(spec_u64_from_le_bytes(spec_u64_to_le_bytes(num)) == num);
}

/// Events that are logged alike are about the same asset, and say the same of it.
pub proof fn law_entries_tell_events_apart(num: u64, one: EventModel, other: EventModel)
    requires
        change_record(num, one) == change_record(num, other),
    ensures
        event_asset(one) == event_asset(other),
        one is Remove <==> other is Remove,
        one matches EventModel::ContentUpdate { import_hash: a, .. } ==> (
        other matches EventModel::ContentUpdate { import_hash: b, .. } && a == b),
{
    law_entry_says(num, one);
    law_entry_says(num, other);
}

/// One more event stands behind the log, under the number after the last, and what
/// was there stays.
pub proof fn law_log_one(log: Seq<ChangeRecordModel>, event: EventModel)
    requires
        log_in_order(log),
        latest_change(log) < u64::MAX,
    ensures
        ({
            let after = log_event(log, event);
            &&& after.len() == log.len() + 1
            &&& after.drop_last() == log
            &&& spec_u64_from_le_bytes(after.last().key) == latest_change(log) + 1
            &&& after.last().entry matches Ok(entry) && entry.num == latest_change(log) + 1 && says(
                entry.event,
                event,
            )
        }),
{
    law_entry_says((latest_change(log) + 1) as u64, event);
    assert(log_event(log, event).drop_last() =~= log);
}

/// The latest change is the number in the key of the last entry, which is above
/// every other, and zero in an empty log.
pub proof fn law_latest_change(log: Seq<ChangeRecordModel>)
    ensures
        log.len() == 0 ==> latest_change(log) == 0,
        log.len() > 0 ==> latest_change(log) == spec_u64_from_le_bytes(log.last().key),
        log_in_order(log) ==> forall|i: int|
            0 <= i < log.len() ==> spec_u64_from_le_bytes((#[trigger] log[i]).key) <= latest_change(
                log,
            ),
{
    if log_in_order(log) && log.len() > 0 {
        let last = log.len() - 1;
        assert forall|i: int| 0 <= i < log.len() implies spec_u64_from_le_bytes(
            (#[trigger] log[i]).key,
        ) <= latest_change(log) by {
            if i < last {
                assert(spec_u64_from_le_bytes(log[i].key) < spec_u64_from_le_bytes(log[last].key));
            }
        }
    }
}

/// A log is in order just when its keys are eight bytes long and their numbers
/// rise, and a key can stand behind it just when it is eight bytes long and its
/// number is above the latest, or the log is empty.
pub proof fn law_log_order(log: Seq<ChangeRecordModel>, key: Seq<u8>)
    ensures
        log_in_order(log) <==> {
            &&& forall|i: int| 0 <= i < log.len() ==> (#[trigger] log[i]).key.len() == 8
            &&& forall|i: int, j: int|
                0 <= i < j < log.len() ==> spec_u64_from_le_bytes((#[trigger] log[i]).key)
                    < spec_u64_from_le_bytes((#[trigger] log[j]).key)
        },
        log_in_order(log) ==> (follows(log, key) <==> key.len() == 8 && (log.len() == 0
            || latest_change(log) < spec_u64_from_le_bytes(key))),
{
    law_latest_change(log);
    if log_in_order(log) && log.len() > 0 {
        let last = log.len() - 1;
        assert(log[last] == log.last());
    }
}

/// The digest of a hash is what the default hasher gives for it, in eight
/// little-endian bytes, and without a hash what it gives for nothing.
pub proof fn law_digest(hash: Seq<u8>)
    ensures
        digest(Some(hash)) == spec_u64_to_le_bytes(
            DefaultHasher::spec_finish(
                hash_writes(
                    hash,
                    usize::BITS,
                    vstd::endian::endianness() == vstd::endian::Endian::Little,
                ),
            ),
        ),
        digest(None) == spec_u64_to_le_bytes(DefaultHasher::spec_finish(Seq::empty())),
        digest(Some(hash)).len() == 8,
        digest(None).len() == 8,
{
    lemma_auto_spec_u64_to_from_le_bytes();
}

/// An asset without a record gets an event that says that it is gone. One with a
/// record gets one with the hash of the artifact that the record names, empty if
/// it names none, and with the digest of the hash that the walk ended with. There
/// is no event just when the record cannot be opened, or the walk is not done.
pub proof fn law_asset_event(
    metadata: Map<Key, Field<RecordModel>>,
    asset: Key,
    steps: nat,
)
    ensures
        ({
            let walked = walk(metadata, asset, seq![asset], None, steps);
            if !metadata.contains_key(asset) {
                asset_event(metadata, asset, steps) == Progress::Done(
                    EventModel::Remove { id: asset },
                )
            } else {
                match metadata[asset] {
                    Err(e) => asset_event(metadata, asset, steps) == Progress::<EventModel>::Failed(
                        Error::Read(e),
                    ),
                    Ok(record) => match walked {
                        Progress::Pending => asset_event(metadata, asset, steps) is Pending,
                        Progress::Aborted => asset_event(metadata, asset, steps) is Aborted,
                        Progress::Failed(e) => asset_event(metadata, asset, steps) == Progress::<
                            EventModel,
                        >::Failed(e),
                        Progress::Done(met) => asset_event(metadata, asset, steps) == Progress::Done(
                            EventModel::ContentUpdate {
                                id: asset,
                                import_hash: Some(
                                    match record.latest_artifact {
                                        Ok(ArtifactModel::Id(Ok(hash))) => hash,
                                        _ => Seq::<u8>::empty(),
                                    },
                                ),
                                build_dep_hash: Some(digest(met)),
                            },
                        ),
                    },
                }
            }
        }),
{
    if metadata.contains_key(asset) {
        if let Progress::Done(met) = walk(metadata, asset, seq![asset], None, steps) {
            law_walk_visits_all(metadata, asset, steps, met);
            assert(is_dep_path(metadata, seq![asset]));
            assert(built_from(metadata, asset, asset));
        }
    }
}

/// Where the events of a batch come from: each affected asset has one, in order.
/// The batch is pending, fails or is aborted at the first asset that is or does, or
/// fails where the dependees of an affected asset cannot be read, or is aborted
/// for want of numbers in the log. Those that end otherwise than pending or aborted
/// are the ones that can be recorded.
pub proof fn law_batch_outcome(store: Store, batch: Seq<Key>, steps: nat)
    ensures
        match affected(store.dependees, batch) {
            Err(e) => batch_events(store, batch, steps) == Progress::<Seq<EventModel>>::Failed(e),
            Ok(assets) => match batch_events(store, batch, steps) {
                Progress::Done(events) => {
                    &&& events.len() == assets.len()
                    &&& latest_change(store.changes) + assets.len() <= u64::MAX
                    &&& forall|i: int|
                        0 <= i < assets.len() ==> asset_event(
                            store.metadata,
                            #[trigger] assets[i],
                            steps,
                        ) == Progress::Done(events[i])
                },
                Progress::Pending => exists|i: int|
                    0 <= i < assets.len() && asset_event(
                        store.metadata,
                        #[trigger] assets[i],
                        steps,
                    ) is Pending && events_up_to(store, assets, steps, i),
                Progress::Failed(e) => exists|i: int|
                    0 <= i < assets.len() && asset_event(store.metadata, #[trigger] assets[i], steps)
                        == Progress::<EventModel>::Failed(e) && events_up_to(store, assets, steps, i),
                Progress::Aborted => {
                    ||| events_up_to(store, assets, steps, assets.len() as int) && latest_change(
                        store.changes,
                    ) + assets.len() > u64::MAX
                    ||| exists|i: int|
                        0 <= i < assets.len() && asset_event(
                            store.metadata,
                            #[trigger] assets[i],
                            steps,
                        ) is Aborted && events_up_to(store, assets, steps, i)
                },
            },
        },
        batch_ends(store, batch, steps) <==> batch_events(store, batch, steps) is Done
            || batch_events(store, batch, steps) is Failed,
{
    if let Ok(assets) = affected(store.dependees, batch) {
        lemma_findings(store.metadata, assets, steps);
        lemma_findings_stop(store, assets, steps);
    }
}

/// Whether each of the first `n` assets has an event.
pub open spec fn events_up_to(store: Store, assets: Seq<Key>, steps: nat, n: int) -> bool {
    forall|i: int|
        0 <= i < n ==> asset_event(store.metadata, #[trigger] assets[i], steps) is Done
}

proof fn lemma_findings_stop(store: Store, assets: Seq<Key>, steps: nat)
    ensures
        match findings(store.metadata, assets, steps) {
            Progress::Done(_) => events_up_to(store, assets, steps, assets.len() as int),
            Progress::Pending => exists|i: int|
                0 <= i < assets.len() && asset_event(store.metadata, #[trigger] assets[i], steps) is Pending
                    && events_up_to(store, assets, steps, i),
            Progress::Aborted => exists|i: int|
                0 <= i < assets.len() && asset_event(store.metadata, #[trigger] assets[i], steps) is Aborted
                    && events_up_to(store, assets, steps, i),
            Progress::Failed(e) => exists|i: int|
                0 <= i < assets.len() && asset_event(store.metadata, #[trigger] assets[i], steps)
                    == Progress::<EventModel>::Failed(e) && events_up_to(store, assets, steps, i),
        },
    decreases assets.len(),
{
    if assets.len() > 0 {
        let init = assets.drop_last();
        lemma_findings_stop(store, init, steps);
        assert forall|n: int| 0 <= n <= init.len() && events_up_to(store, init, steps, n) implies
        #[trigger] events_up_to(store, assets, steps, n) by {
            assert forall|i: int| 0 <= i < n implies asset_event(
                store.metadata,
                #[trigger] assets[i],
                steps,
            ) is Done by {
                assert(init[i] == assets[i]);
            }
        }
        assert forall|i: int| 0 <= i < init.len() implies #[trigger] init[i] == assets[i] by {
        }
        let last = assets.len() - 1;
        assert(assets[last] == assets.last());
        match findings(store.metadata, init, steps) {
            Progress::Done(_) => {
                assert(events_up_to(store, assets, steps, last));
            },
            Progress::Pending => {
                let i = choose|i: int|
                    0 <= i < init.len() && asset_event(store.metadata, #[trigger] init[i], steps) is Pending
                        && events_up_to(store, init, steps, i);
                assert(asset_event(store.metadata, assets[i], steps) is Pending);
                assert(events_up_to(store, assets, steps, i));
            },
            Progress::Aborted => {
                let i = choose|i: int|
                    0 <= i < init.len() && asset_event(store.metadata, #[trigger] init[i], steps) is Aborted
                        && events_up_to(store, init, steps, i);
                assert(asset_event(store.metadata, assets[i], steps) is Aborted);
                assert(events_up_to(store, assets, steps, i));
            },
            Progress::Failed(e) => {
                let i = choose|i: int|
                    0 <= i < init.len() && asset_event(store.metadata, #[trigger] init[i], steps)
                        == Progress::<EventModel>::Failed(e) && events_up_to(store, init, steps, i);
                assert(asset_event(store.metadata, assets[i], steps) == Progress::<
                    EventModel,
                >::Failed(e));
                assert(events_up_to(store, assets, steps, i));
            },
        }
    }
}

/// A removed asset is in the log after its removal was recorded: the entry is a
/// removal of the asset by its whole name.
pub proof fn law_removal_in_log(
    store: Store,
    id: Key,
    batch: Seq<Key>,
    steps: nat,
    events: Seq<EventModel>,
)
    requires
        store.dependees.dom().finite(),
        log_in_order(store.changes),
        store.metadata.contains_key(id),
        remove_outcome(store, id, batch).result is Ok,
        ({
            let removed = remove_outcome(store, id, batch);
            batch_events(removed.store, removed.batch, steps) == Progress::Done(events)
        }),
    ensures
        ({
            let log = recorded(remove_outcome(store, id, batch).store, events).changes;
            exists|i: int|
                store.changes.len() <= i < log.len() && ((#[trigger] log[i]).entry matches Ok(entry)
                    && entry.event == (LoggedModel::Remove { id }))
        }),
{
    let removed = remove_outcome(store, id, batch).store;
    law_remove_is_recorded(store, id, batch, steps, events);
    law_batch_outcome(removed, remove_outcome(store, id, batch).batch, steps);
    law_log_grows(removed, events);
    let k = choose|k: int| 0 <= k < events.len() && events[k] == (EventModel::Remove { id });
    let log = recorded(removed, events).changes;
    let i = store.changes.len() + k;
    assert(log[removed.changes.len() + k].entry is Ok);
    assert(says(log[i].entry->Ok_0.event, events[k]));
}

/// An imported asset with a new artifact is in the log after its import was
/// recorded: the entry names it, has the hash of the artifact as its import hash,
/// and the digest of what the walk over its build dependencies ended with.
pub proof fn law_import_in_log(
    store: Store,
    import_hash: u64,
    metadata: MetadataModel,
    source: AssetSource,
    batch: Seq<Key>,
    steps: nat,
    events: Seq<EventModel>,
)
    requires
        store.dependees.dom().finite(),
        log_in_order(store.changes),
        update_outcome(store, import_hash, metadata, source, batch).result is Ok,
        artifact_at(store.metadata, metadata.id) != Some(spec_u64_to_le_bytes(import_hash)),
        ({
            let updated = update_outcome(store, import_hash, metadata, source, batch);
            batch_events(updated.store, updated.batch, steps) == Progress::Done(events)
        }),
    ensures
        ({
            let updated = update_outcome(store, import_hash, metadata, source, batch).store;
            let log = recorded(updated, events).changes;
            let walked = walk(updated.metadata, metadata.id, seq![metadata.id], None, steps);
            &&& walked is Done
            &&& exists|i: int|
                store.changes.len() <= i < log.len() && ((#[trigger] log[i]).entry matches Ok(entry)
                    && entry.event == (LoggedModel::ContentUpdate {
                    id: metadata.id,
                    import_hash: Some(spec_u64_to_le_bytes(import_hash)),
                    build_dep_hash: digest(walked->Done_0),
                }))
        }),
{
    let updated = update_outcome(store, import_hash, metadata, source, batch);
    law_update_is_recorded(store, import_hash, metadata, source, batch, steps, events);
    law_batch_outcome(updated.store, updated.batch, steps);
    law_log_grows(updated.store, events);
    let assets = affected(updated.store.dependees, updated.batch)->Ok_0;
    let k = choose|k: int|
        0 <= k < events.len() && (#[trigger] events[k] matches EventModel::ContentUpdate {
            id,
            import_hash: hash,
            ..
        } && id == metadata.id && hash == Some(spec_u64_to_le_bytes(import_hash)));
    assert(asset_event(updated.store.metadata, assets[k], steps) == Progress::Done(events[k]));
    law_asset_event(updated.store.metadata, assets[k], steps);
    assert(assets[k] == metadata.id);
    let log = recorded(updated.store, events).changes;
    let i = store.changes.len() + k;
    assert(log[updated.store.changes.len() + k].entry is Ok);
    let met = walk(updated.store.metadata, metadata.id, seq![metadata.id], None, steps)->Done_0;
    assert(says(log[i].entry->Ok_0.event, events[k]));
    assert(log[i].entry->Ok_0.event == (LoggedModel::ContentUpdate {
        id: metadata.id,
        import_hash: Some(spec_u64_to_le_bytes(import_hash)),
        build_dep_hash: digest(met),
    }));
}

}
