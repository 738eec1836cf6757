//! When the walk over the build dependencies of an asset comes to an end.
use vstd::prelude::*;

use crate::affected::affected;
use crate::asset::Key;
use crate::change::latest_change;
use crate::index_laws::named_dep;
use crate::message::{ArtifactModel, Field, RecordModel, StoredRefModel};
use crate::outcome_laws::unreadable;
use crate::record::{batch_ends, batch_events, findings};
use crate::transaction::Store;
use crate::update::{all_uuids, is_uuid, stored_keys};
use crate::walk::{finding, visited, walk, Progress};

verus! {

/// A walk that is done after some steps ends the same way if it is given more.
pub proof fn law_walk_more_steps(
    metadata: Map<Key, Field<RecordModel>>,
    asset: Key,
    queue: Seq<Key>,
    met: Option<Seq<u8>>,
    steps: nat,
    more: nat,
)
    requires
        steps <= more,
        !(walk(metadata, asset, queue, met, steps) is Pending),
    ensures
        walk(metadata, asset, queue, met, more) == walk(metadata, asset, queue, met, steps),
    decreases steps,
{
    if queue.len() > 0 {
        let id = queue.first();
        let rest = queue.drop_first();
        let left = (steps - 1) as nat;
        let more_left = (more - 1) as nat;
        if (id == asset && met is Some) || !metadata.contains_key(id) {
            law_walk_more_steps(metadata, asset, rest, met, left, more_left);
        } else if let Ok((hash, deps)) = visited(metadata[id]) {
            if all_uuids(deps) {
                let now = if hash is Some {
                    hash
                } else {
                    met
                };
                law_walk_more_steps(
                    metadata,
                    asset,
                    rest + stored_keys(deps),
                    now,
                    left,
                    more_left,
                );
            }
        }
    }
}

proof fn lemma_findings_more_steps(
    metadata: Map<Key, Field<RecordModel>>,
    assets: Seq<Key>,
    steps: nat,
    more: nat,
)
    requires
        steps <= more,
        !(findings(metadata, assets, steps) is Pending),
    ensures
        findings(metadata, assets, more) == findings(metadata, assets, steps),
    decreases assets.len(),
{
    if assets.len() > 0 {
        let last = assets.last();
        lemma_findings_more_steps(metadata, assets.drop_last(), steps, more);
        if findings(metadata, assets.drop_last(), steps) is Done {
            assert(!(finding(metadata, last, steps) is Pending));
            if metadata.contains_key(last) && metadata[last] is Ok {
                law_walk_more_steps(metadata, last, seq![last], None, steps, more);
            }
        }
    }
}

/// What a batch leads to once its walks are done within some steps, it leads to
/// with any larger number of steps.
pub proof fn law_batch_more_steps(store: Store, batch: Seq<Key>, steps: nat, more: nat)
    requires
        steps <= more,
        !(batch_events(store, batch, steps) is Pending),
    ensures
        batch_events(store, batch, more) == batch_events(store, batch, steps),
{
    if let Ok(assets) = affected(store.dependees, batch) {
        lemma_findings_more_steps(store.metadata, assets, steps, more);
    }
}

/// Whether the record of `asset` names an artifact.
pub open spec fn has_artifact(metadata: Map<Key, Field<RecordModel>>, asset: Key) -> bool {
    metadata.contains_key(asset) && (visited(metadata[asset]) matches Ok((hash, _)) && hash is Some)
}

/// Whether, on the assets in `part`, build dependencies lead downwards in `rank`,
/// and stay in `part`. Only one on `asset` itself may lead back up, if `asset` has
/// an artifact.
pub open spec fn leads_down(
    metadata: Map<Key, Field<RecordModel>>,
    asset: Key,
    part: Set<Key>,
    rank: spec_fn(Key) -> nat,
) -> bool {
    forall|id: Key|
        #![trigger part.contains(id)]
        part.contains(id) && metadata.contains_key(id) ==> (visited(metadata[id]) matches Ok((_, deps))
            ==> forall|i: int|
            0 <= i < deps.len() ==> {
                let dep = #[trigger] stored_keys(deps)[i];
                &&& part.contains(dep)
                &&& rank(dep) < rank(id) || (dep == asset && has_artifact(metadata, asset))
            })
}

/// A number of steps in which a walk from `id` on is done.
pub open spec fn steps_from(
    metadata: Map<Key, Field<RecordModel>>,
    asset: Key,
    rank: spec_fn(Key) -> nat,
    id: Key,
) -> nat
    decreases rank(id), 1nat, 0nat,
{
    if metadata.contains_key(id) {
        match visited(metadata[id]) {
            Ok((_, deps)) => 1 + steps_below(metadata, asset, rank, stored_keys(deps), rank(id)),
            Err(_) => 1,
        }
    } else {
        1
    }
}

/// A number of steps in which the walks from each of `deps` on are done, where
/// these rank below `bound` or are `asset` again.
pub open spec fn steps_below(
    metadata: Map<Key, Field<RecordModel>>,
    asset: Key,
    rank: spec_fn(Key) -> nat,
    deps: Seq<Key>,
    bound: nat,
) -> nat
    decreases bound, 0nat, deps.len(),
{
    if deps.len() == 0 {
        0
    } else {
        steps_below(metadata, asset, rank, deps.drop_last(), bound) + if deps.last() == asset
            && has_artifact(metadata, asset) {
            1
        } else if rank(deps.last()) < bound {
            steps_from(metadata, asset, rank, deps.last())
        } else {
            0
        }
    }
}

/// The steps that the assets in a queue take, where `asset` counts once if it was
/// met before.
spec fn queue_steps(
    metadata: Map<Key, Field<RecordModel>>,
    asset: Key,
    rank: spec_fn(Key) -> nat,
    queue: Seq<Key>,
) -> nat
    decreases queue.len(),
{
    if queue.len() == 0 {
        0
    } else {
        item_steps(metadata, asset, rank, queue.first()) + queue_steps(
            metadata,
            asset,
            rank,
            queue.drop_first(),
        )
    }
}

/// The steps that one asset in a queue takes.
spec fn item_steps(
    metadata: Map<Key, Field<RecordModel>>,
    asset: Key,
    rank: spec_fn(Key) -> nat,
    id: Key,
) -> nat {
    if id == asset && has_artifact(metadata, asset) {
        1
    } else {
        steps_from(metadata, asset, rank, id)
    }
}

proof fn lemma_queue_steps_push(
    metadata: Map<Key, Field<RecordModel>>,
    asset: Key,
    rank: spec_fn(Key) -> nat,
    queue: Seq<Key>,
    last: Key,
)
    ensures
        queue_steps(metadata, asset, rank, queue.push(last)) == queue_steps(
            metadata,
            asset,
            rank,
            queue,
        ) + item_steps(metadata, asset, rank, last),
    decreases queue.len(),
{
    assert(queue.push(last).first() == if queue.len() == 0 {
        last
    } else {
        queue.first()
    });
    if queue.len() == 0 {
        assert(queue.push(last).drop_first() =~= queue);
    } else {
        assert(queue.push(last).drop_first() =~= queue.drop_first().push(last));
        lemma_queue_steps_push(metadata, asset, rank, queue.drop_first(), last);
    }
}

/// Putting the build dependencies of an asset behind a queue.
proof fn lemma_queue_steps_extend(
    metadata: Map<Key, Field<RecordModel>>,
    asset: Key,
    rank: spec_fn(Key) -> nat,
    queue: Seq<Key>,
    deps: Seq<Key>,
    bound: nat,
)
    requires
        forall|i: int|
            0 <= i < deps.len() ==> rank(#[trigger] deps[i]) < bound || (deps[i] == asset
                && has_artifact(metadata, asset)),
    ensures
        queue_steps(metadata, asset, rank, queue + deps) == queue_steps(
            metadata,
            asset,
            rank,
            queue,
        ) + steps_below(metadata, asset, rank, deps, bound),
    decreases deps.len(),
{
    if deps.len() == 0 {
        assert(queue + deps =~= queue);
    } else {
        let init = deps.drop_last();
        assert forall|i: int| 0 <= i < init.len() implies rank(#[trigger] init[i]) < bound || (
        init[i] == asset && has_artifact(metadata, asset)) by {
            assert(init[i] == deps[i]);
        }
        lemma_queue_steps_extend(metadata, asset, rank, queue, init, bound);
        assert(queue + deps =~= (queue + init).push(deps.last()));
        lemma_queue_steps_push(metadata, asset, rank, queue + init, deps.last());
        let last = deps[deps.len() - 1];
        assert(rank(last) < bound || (last == asset && has_artifact(metadata, asset)));
    }
}

/// A walk is done within the steps of its queue, once a hash was met if `asset`
/// has one.
proof fn lemma_walk_ends(
    metadata: Map<Key, Field<RecordModel>>,
    asset: Key,
    part: Set<Key>,
    rank: spec_fn(Key) -> nat,
    queue: Seq<Key>,
    met: Option<Seq<u8>>,
    steps: nat,
)
    requires
        leads_down(metadata, asset, part, rank),
        forall|i: int| 0 <= i < queue.len() ==> part.contains(#[trigger] queue[i]),
        has_artifact(metadata, asset) ==> met is Some,
        queue_steps(metadata, asset, rank, queue) <= steps,
    ensures
        !(walk(metadata, asset, queue, met, steps) is Pending),
    decreases steps,
{
    if queue.len() > 0 {
        let id = queue.first();
        let rest = queue.drop_first();
        let left = (steps - 1) as nat;
        assert(part.contains(queue[0]));
        assert forall|i: int| 0 <= i < rest.len() implies part.contains(#[trigger] rest[i]) by {
            assert(rest[i] == queue[i + 1]);
        }
        assert(item_steps(metadata, asset, rank, id) >= 1);
        if (id == asset && met is Some) || !metadata.contains_key(id) {
            lemma_walk_ends(metadata, asset, part, rank, rest, met, left);
        } else if let Ok((hash, deps)) = visited(metadata[id]) {
            if all_uuids(deps) {
                lemma_visit(metadata, asset, part, rank, id, rest);
                let now = if hash is Some {
                    hash
                } else {
                    met
                };
                lemma_walk_ends(
                    metadata,
                    asset,
                    part,
                    rank,
                    rest + stored_keys(deps),
                    now,
                    left,
                );
            }
        }
    }
}

/// Visiting an asset takes a step off those that were counted for it.
proof fn lemma_visit(
    metadata: Map<Key, Field<RecordModel>>,
    asset: Key,
    part: Set<Key>,
    rank: spec_fn(Key) -> nat,
    id: Key,
    rest: Seq<Key>,
)
    requires
        leads_down(metadata, asset, part, rank),
        part.contains(id),
        metadata.contains_key(id),
        visited(metadata[id]) is Ok,
        forall|i: int| 0 <= i < rest.len() ==> part.contains(#[trigger] rest[i]),
    ensures
        ({
            let queue = rest + stored_keys(visited(metadata[id])->Ok_0.1);
            &&& queue_steps(metadata, asset, rank, queue) + 1 == queue_steps(
                metadata,
                asset,
                rank,
                rest,
            ) + steps_from(metadata, asset, rank, id)
            &&& forall|i: int| 0 <= i < queue.len() ==> part.contains(#[trigger] queue[i])
        }),
{
    let deps = visited(metadata[id])->Ok_0.1;
    let keys = stored_keys(deps);
    assert forall|i: int| 0 <= i < keys.len() implies rank(#[trigger] keys[i]) < rank(id) || (keys[i]
        == asset && has_artifact(metadata, asset)) by {
        let dep = stored_keys(deps)[i];
    }
    lemma_queue_steps_extend(metadata, asset, rank, rest, keys, rank(id));
    let queue = rest + keys;
    assert forall|i: int| 0 <= i < queue.len() implies part.contains(#[trigger] queue[i]) by {
        if i >= rest.len() {
            let dep = stored_keys(deps)[i - rest.len()];
            assert(part.contains(dep));
        }
    }
}

/// The walk over the build dependencies of an asset comes to an end where these
/// do not run in a circle, other than one through the asset itself while it has
/// an artifact.
pub proof fn law_walk_ends(
    metadata: Map<Key, Field<RecordModel>>,
    asset: Key,
    part: Set<Key>,
    rank: spec_fn(Key) -> nat,
    steps: nat,
)
    requires
        part.contains(asset),
        leads_down(metadata, asset, part, rank),
        steps_from(metadata, asset, rank, asset) <= steps,
    ensures
        !(walk(metadata, asset, seq![asset], None, steps) is Pending),
{
    let queue = seq![asset];
    let none = Seq::<Key>::empty();
    assert(queue.drop_first() =~= none);
    assert(queue.first() == asset);
    if metadata.contains_key(asset) {
        if let Ok((hash, deps)) = visited(metadata[asset]) {
            if all_uuids(deps) {
                lemma_visit(metadata, asset, part, rank, asset, none);
                let next = none + stored_keys(deps);
                assert(queue.drop_first() + stored_keys(deps) =~= next);
                lemma_walk_ends(metadata, asset, part, rank, next, hash, (steps - 1) as nat);
            }
        }
    } else {
        assert(walk(metadata, asset, none, None, (steps - 1) as nat) is Done);
    }
}

/// Whether every record can be read as far as a walk reads it, and has names
/// alone as build dependencies.
pub open spec fn records_readable(metadata: Map<Key, Field<RecordModel>>) -> bool {
    forall|id: Key| #[trigger]
        metadata.contains_key(id) ==> (visited(metadata[id]) matches Ok((_, deps)) && all_uuids(deps))
}

/// Whether build dependencies lead downwards in `rank`, so that none run in a
/// circle.
pub open spec fn acyclic(metadata: Map<Key, Field<RecordModel>>, rank: spec_fn(Key) -> nat) -> bool {
    forall|id: Key| #[trigger]
        metadata.contains_key(id) ==> (visited(metadata[id]) matches Ok((_, deps)) ==> forall|i: int|
            0 <= i < deps.len() ==> rank(#[trigger] stored_keys(deps)[i]) < rank(id))
}

/// A walk over records that can be read does not fail.
proof fn lemma_walk_reads(
    metadata: Map<Key, Field<RecordModel>>,
    asset: Key,
    queue: Seq<Key>,
    met: Option<Seq<u8>>,
    steps: nat,
)
    requires
        records_readable(metadata),
    ensures
        walk(metadata, asset, queue, met, steps) is Done || walk(
            metadata,
            asset,
            queue,
            met,
            steps,
        ) is Pending,
    decreases steps,
{
    if queue.len() > 0 && steps > 0 {
        let id = queue.first();
        let rest = queue.drop_first();
        let left = (steps - 1) as nat;
        if (id == asset && met is Some) || !metadata.contains_key(id) {
            lemma_walk_reads(metadata, asset, rest, met, left);
        } else if let Ok((hash, deps)) = visited(metadata[id]) {
            let now = if hash is Some {
                hash
            } else {
                met
            };
            lemma_walk_reads(metadata, asset, rest + stored_keys(deps), now, left);
        }
    }
}

/// Where each finding comes about, all do.
proof fn lemma_findings_done(metadata: Map<Key, Field<RecordModel>>, assets: Seq<Key>, steps: nat)
    requires
        forall|i: int| 0 <= i < assets.len() ==> finding(metadata, #[trigger] assets[i], steps) is Done,
    ensures
        findings(metadata, assets, steps) is Done,
    decreases assets.len(),
{
    if assets.len() > 0 {
        let init = assets.drop_last();
        assert forall|i: int| 0 <= i < init.len() implies finding(
            metadata,
            #[trigger] init[i],
            steps,
        ) is Done by {
            assert(init[i] == assets[i]);
        }
        lemma_findings_done(metadata, init, steps);
        assert(finding(metadata, assets[assets.len() - 1], steps) is Done);
    }
}

/// A batch can be recorded where the lists and the records that it leads to can
/// be read, build dependencies do not run in a circle, there are steps enough,
/// and the log has numbers left.
pub proof fn law_batch_done(
    store: Store,
    batch: Seq<Key>,
    rank: spec_fn(Key) -> nat,
    steps: nat,
)
    requires
        affected(store.dependees, batch) is Ok,
        records_readable(store.metadata),
        acyclic(store.metadata, rank),
        ({
            let assets = affected(store.dependees, batch)->Ok_0;
            &&& forall|i: int|
                0 <= i < assets.len() ==> steps_from(
                    store.metadata,
                    assets[i],
                    rank,
                    #[trigger] assets[i],
                ) <= steps
            &&& latest_change(store.changes) + assets.len() <= u64::MAX
        }),
    ensures
        batch_ends(store, batch, steps),
        batch_events(store, batch, steps) is Done,
{
    let metadata = store.metadata;
    let assets = affected(store.dependees, batch)->Ok_0;
    assert forall|i: int| 0 <= i < assets.len() implies finding(
        metadata,
        #[trigger] assets[i],
        steps,
    ) is Done by {
        let asset = assets[i];
        if metadata.contains_key(asset) {
            let all = Set::<Key>::full();
            assert(leads_down(metadata, asset, all, rank));
            law_walk_ends(metadata, asset, all, rank, steps);
            lemma_walk_reads(metadata, asset, seq![asset], None, steps);
        }
    }
    lemma_findings_done(metadata, assets, steps);
}

/// The hash of the artifact that the record of an asset names, if it names one.
pub open spec fn artifact_at(metadata: Map<Key, Field<RecordModel>>, id: Key) -> Option<Seq<u8>> {
    if metadata.contains_key(id) {
        match metadata[id] {
            Ok(record) => match record.latest_artifact {
                Ok(ArtifactModel::Id(Ok(hash))) => Some(hash),
                _ => None,
            },
            Err(_) => None,
        }
    } else {
        None
    }
}

/// The build dependencies in the record of an asset.
pub open spec fn refs_at(metadata: Map<Key, Field<RecordModel>>, id: Key) -> Seq<StoredRefModel> {
    metadata[id]->Ok_0.build_deps->Ok_0
}

/// The names of the build dependencies in the record of an asset, each in its
/// place.
pub open spec fn deps_at(metadata: Map<Key, Field<RecordModel>>, id: Key) -> Seq<Key> {
    Seq::new(refs_at(metadata, id).len(), |i: int| refs_at(metadata, id)[i]->Uuid_0)
}

/// Whether the asset in place `i` of a line is visited when its turn comes: it has
/// a record, and it is not `asset` again after one with an artifact.
pub open spec fn visits(
    metadata: Map<Key, Field<RecordModel>>,
    asset: Key,
    line: Seq<Key>,
    i: int,
) -> bool {
    &&& metadata.contains_key(line[i])
    &&& !(line[i] == asset && exists|j: int|
        0 <= j < i && (#[trigger] artifact_at(metadata, line[j])) is Some)
}

/// Breadth-first order: the line of assets that begins with `asset`, and behind
/// which, for each of the first `n` in turn that is visited, all of its build
/// dependencies are put.
pub open spec fn breadth_first(
    metadata: Map<Key, Field<RecordModel>>,
    asset: Key,
    n: nat,
) -> Seq<Key>
    decreases n,
{
    if n == 0 {
        seq![asset]
    } else {
        let line = breadth_first(metadata, asset, (n - 1) as nat);
        if n - 1 < line.len() && visits(metadata, asset, line, n - 1) {
            line + deps_at(metadata, line[n - 1])
        } else {
            line
        }
    }
}

/// Whether `met` is the hash of the last artifact among the first `n` of a line:
/// that of one which is visited, and behind which none is visited that has another.
pub open spec fn last_met(
    metadata: Map<Key, Field<RecordModel>>,
    asset: Key,
    line: Seq<Key>,
    n: int,
    met: Option<Seq<u8>>,
) -> bool {
    match met {
        None => forall|i: int| 0 <= i < n ==> (#[trigger] artifact_at(metadata, line[i])) is None,
        Some(_) => exists|i: int|
            {
                &&& 0 <= i < n
                &&& visits(metadata, asset, line, i)
                &&& #[trigger] artifact_at(metadata, line[i]) == met
                &&& forall|j: int|
                    i < j < n && #[trigger] visits(metadata, asset, line, j) ==> artifact_at(
                        metadata,
                        line[j],
                    ) is None
            },
    }
}

/// What a walk reads of a record.
proof fn lemma_visited(metadata: Map<Key, Field<RecordModel>>, id: Key)
    requires
        metadata.contains_key(id),
    ensures
        visited(metadata[id]) is Ok <==> unreadable(metadata[id]) is None,
        visited(metadata[id]) matches Err(e) ==> unreadable(metadata[id]) == Some(e),
        visited(metadata[id]) matches Ok((hash, deps)) ==> hash == artifact_at(metadata, id) && deps
            == refs_at(metadata, id) && (all_uuids(deps) ==> stored_keys(deps) == deps_at(
            metadata,
            id,
        )),
{
    if let Ok((hash, deps)) = visited(metadata[id]) {
        if all_uuids(deps) {
            assert forall|i: int| 0 <= i < deps.len() implies stored_keys(deps)[i]
                == #[trigger] deps[i]->Uuid_0 by {
                assert(is_uuid(deps[i]));
            }
            assert(stored_keys(deps) =~= deps_at(metadata, id));
        }
    }
}

/// What is in the line stays where it is.
proof fn lemma_line_grows(metadata: Map<Key, Field<RecordModel>>, asset: Key, n: nat, more: nat)
    requires
        n <= more,
    ensures
        breadth_first(metadata, asset, n).len() <= breadth_first(metadata, asset, more).len(),
        forall|i: int|
            0 <= i < breadth_first(metadata, asset, n).len() ==> #[trigger] breadth_first(
                metadata,
                asset,
                more,
            )[i] == breadth_first(metadata, asset, n)[i],
    decreases more - n,
{
    if n < more {
        lemma_line_grows(metadata, asset, n, (more - 1) as nat);
    }
}

/// Whether one is visited, and what was met last, rests on the line up to there.
proof fn lemma_same_line(
    metadata: Map<Key, Field<RecordModel>>,
    asset: Key,
    line: Seq<Key>,
    longer: Seq<Key>,
    n: int,
    met: Option<Seq<u8>>,
)
    requires
        0 <= n <= line.len() <= longer.len(),
        forall|i: int| 0 <= i < line.len() ==> #[trigger] longer[i] == line[i],
    ensures
        forall|i: int|
            0 <= i < line.len() ==> (#[trigger] visits(metadata, asset, line, i) == visits(
                metadata,
                asset,
                longer,
                i,
            )),
        last_met(metadata, asset, line, n, met) ==> last_met(metadata, asset, longer, n, met),
{
    assert forall|i: int| 0 <= i < line.len() implies (#[trigger] visits(metadata, asset, line, i)
        == visits(metadata, asset, longer, i)) by {
        assert(longer[i] == line[i]);
        if exists|j: int| 0 <= j < i && (#[trigger] artifact_at(metadata, line[j])) is Some {
            let j = choose|j: int| 0 <= j < i && (#[trigger] artifact_at(metadata, line[j])) is Some;
            assert(artifact_at(metadata, longer[j]) is Some);
        }
        if exists|j: int| 0 <= j < i && (#[trigger] artifact_at(metadata, longer[j])) is Some {
            let j = choose|j: int| 0 <= j < i && (#[trigger] artifact_at(metadata, longer[j])) is Some;
            assert(artifact_at(metadata, line[j]) is Some);
        }
    }
    if last_met(metadata, asset, line, n, met) {
        if met is Some {
            let i = choose|i: int|
                {
                    &&& 0 <= i < n
                    &&& visits(metadata, asset, line, i)
                    &&& #[trigger] artifact_at(metadata, line[i]) == met
                    &&& forall|j: int|
                        i < j < n && #[trigger] visits(metadata, asset, line, j) ==> artifact_at(
                            metadata,
                            line[j],
                        ) is None
                };
            assert(visits(metadata, asset, longer, i));
            assert(artifact_at(metadata, longer[i]) == met);
            assert forall|j: int| i < j < n && #[trigger] visits(metadata, asset, longer, j) implies
            artifact_at(metadata, longer[j]) is None by {
                assert(visits(metadata, asset, line, j) == visits(metadata, asset, longer, j));
            }
        } else {
            assert forall|i: int| 0 <= i < n implies (#[trigger] artifact_at(
                metadata,
                longer[i],
            )) is None by {
                assert(artifact_at(metadata, line[i]) is None);
            }
        }
    }
}

/// Whether a walk is over: there is nobody in line behind the first `n`, and `met`
/// is what was met last.
pub open spec fn walked_to_end(
    metadata: Map<Key, Field<RecordModel>>,
    asset: Key,
    n: nat,
    met: Option<Seq<u8>>,
) -> bool {
    let line = breadth_first(metadata, asset, n);
    line.len() == n && last_met(metadata, asset, line, n as int, met)
}

/// Whether the walk comes to an asset in place `n` of the line that it visits.
pub open spec fn comes_to(metadata: Map<Key, Field<RecordModel>>, asset: Key, n: nat) -> bool {
    let line = breadth_first(metadata, asset, n);
    n < line.len() && visits(metadata, asset, line, n as int)
}

/// Whether each reference of a record is a name of sixteen bytes.
pub open spec fn names_alone(refs: Seq<StoredRefModel>) -> bool {
    forall|i: int|
        0 <= i < refs.len() ==> (#[trigger] refs[i] matches StoredRefModel::Uuid(uuid) && uuid.len()
            == 16)
}

proof fn lemma_names_alone(refs: Seq<StoredRefModel>)
    ensures
        names_alone(refs) <==> all_uuids(refs),
{
    assert forall|i: int| 0 <= i < refs.len() implies is_uuid(#[trigger] refs[i]) == (
    refs[i] matches StoredRefModel::Uuid(uuid) && uuid.len() == 16) by {
    }
}

/// The walk from the place `n` of the line on.
proof fn lemma_walk_line(
    metadata: Map<Key, Field<RecordModel>>,
    asset: Key,
    queue: Seq<Key>,
    met: Option<Seq<u8>>,
    steps: nat,
    n: nat,
)
    requires
        n <= breadth_first(metadata, asset, n).len(),
        queue == breadth_first(metadata, asset, n).skip(n as int),
        last_met(metadata, asset, breadth_first(metadata, asset, n), n as int, met),
        met is None ==> forall|i: int|
            0 <= i < n ==> (#[trigger] artifact_at(
                metadata,
                breadth_first(metadata, asset, n)[i],
            )) is None,
        reads_up_to(metadata, asset, n),
    ensures
        match walk(metadata, asset, queue, met, steps) {
            Progress::Done(end) => exists|m: nat|
                n <= m <= n + steps && #[trigger] walked_to_end(metadata, asset, m, end)
                    && reads_up_to(metadata, asset, m),
            Progress::Pending => breadth_first(metadata, asset, n + steps).len() > n + steps
                && reads_up_to(metadata, asset, n + steps),
            Progress::Failed(e) => exists|m: nat|
                n <= m < n + steps && #[trigger] comes_to(metadata, asset, m) && unreadable(
                    metadata[breadth_first(metadata, asset, m)[m as int]],
                ) == Some(e) && reads_up_to(metadata, asset, m),
            Progress::Aborted => exists|m: nat|
                n <= m < n + steps && #[trigger] comes_to(metadata, asset, m) && unreadable(
                    metadata[breadth_first(metadata, asset, m)[m as int]],
                ) is None && !names_alone(
                    refs_at(metadata, breadth_first(metadata, asset, m)[m as int]),
                ) && reads_up_to(metadata, asset, m),
        },
    decreases steps,
{
    let line = breadth_first(metadata, asset, n);
    if queue.len() == 0 {
        assert(walked_to_end(metadata, asset, n, met));
    } else if steps == 0 {
    } else {
        let id = queue.first();
        assert(id == line[n as int]);
        let rest = queue.drop_first();
        let left = (steps - 1) as nat;
        let next = breadth_first(metadata, asset, n + 1);
        // What was met is a hash just when one of those before has an artifact.
        assert(met is Some <==> exists|j: int|
            0 <= j < n && (#[trigger] artifact_at(metadata, line[j])) is Some);
        assert(visits(metadata, asset, line, n as int) <==> metadata.contains_key(id) && !(id
            == asset && met is Some));
        assert(line.len() <= next.len());
        lemma_same_line(metadata, asset, line, next, n as int, met);
        if !visits(metadata, asset, line, n as int) {
            assert(next == line);
            assert(next.skip((n + 1) as int) =~= rest);
            lemma_not_met(metadata, asset, line, n as int, met);
            assert forall|i: nat| i < n + 1 && #[trigger] comes_to(metadata, asset, i) implies visit_reads(
                metadata,
                asset,
                i,
            ) by {
                assert(i < n);
            }
            lemma_walk_line(metadata, asset, rest, met, left, n + 1);
        } else {
            assert(comes_to(metadata, asset, n));
            lemma_visited(metadata, id);
            if let Ok((hash, deps)) = visited(metadata[id]) {
                lemma_names_alone(deps);
                if all_uuids(deps) {
                    let now = if hash is Some {
                        hash
                    } else {
                        met
                    };
                    assert(next == line + deps_at(metadata, id));
                    assert(next.skip((n + 1) as int) =~= rest + stored_keys(deps));
                    assert(visits(metadata, asset, next, n as int));
                    assert(artifact_at(metadata, next[n as int]) == hash);
                    lemma_met(metadata, asset, next, n as int, met);
                    assert forall|i: nat|
                        i < n + 1 && #[trigger] comes_to(metadata, asset, i) implies visit_reads(
                        metadata,
                        asset,
                        i,
                    ) by {
                        if i == n {
                            assert(visit_reads(metadata, asset, n));
                        }
                    }
                    lemma_walk_line(metadata, asset, rest + stored_keys(deps), now, left, n + 1);
                }
            }
        }
    }
}

/// Whether the record of the asset in place `n` of the line can be read and has
/// names alone as build dependencies.
pub open spec fn visit_reads(metadata: Map<Key, Field<RecordModel>>, asset: Key, n: nat) -> bool {
    let id = breadth_first(metadata, asset, n)[n as int];
    unreadable(metadata[id]) is None && names_alone(refs_at(metadata, id))
}

/// Whether all that is visited of the first `n` in line can be read and has names
/// alone as build dependencies.
pub open spec fn reads_up_to(metadata: Map<Key, Field<RecordModel>>, asset: Key, n: nat) -> bool {
    forall|i: nat| i < n && #[trigger] comes_to(metadata, asset, i) ==> visit_reads(metadata, asset, i)
}

/// One that is passed over changes nothing of what was met last.
proof fn lemma_not_met(
    metadata: Map<Key, Field<RecordModel>>,
    asset: Key,
    line: Seq<Key>,
    n: int,
    met: Option<Seq<u8>>,
)
    requires
        0 <= n < line.len(),
        !visits(metadata, asset, line, n),
        last_met(metadata, asset, line, n, met),
    ensures
        last_met(metadata, asset, line, n + 1, met),
{
    if met is Some {
        let i = choose|i: int|
            {
                &&& 0 <= i < n
                &&& visits(metadata, asset, line, i)
                &&& #[trigger] artifact_at(metadata, line[i]) == met
                &&& forall|j: int|
                    i < j < n && #[trigger] visits(metadata, asset, line, j) ==> artifact_at(
                        metadata,
                        line[j],
                    ) is None
            };
        assert(artifact_at(metadata, line[i]) == met);
    } else {
        assert forall|i: int| 0 <= i < n + 1 implies (#[trigger] artifact_at(
            metadata,
            line[i],
        )) is None by {
            if i == n && artifact_at(metadata, line[n]) is Some {
                assert(line[n] == asset);
                let j = choose|j: int|
                    0 <= j < n && (#[trigger] artifact_at(metadata, line[j])) is Some;
            }
        }
    }
}

/// One that is visited is what was met last if it has an artifact.
proof fn lemma_met(
    metadata: Map<Key, Field<RecordModel>>,
    asset: Key,
    line: Seq<Key>,
    n: int,
    met: Option<Seq<u8>>,
)
    requires
        0 <= n < line.len(),
        visits(metadata, asset, line, n),
        last_met(metadata, asset, line, n, met),
    ensures
        last_met(
            metadata,
            asset,
            line,
            n + 1,
            if artifact_at(metadata, line[n]) is Some {
                artifact_at(metadata, line[n])
            } else {
                met
            },
        ),
{
    if artifact_at(metadata, line[n]) is Some {
    } else if met is Some {
        let i = choose|i: int|
            {
                &&& 0 <= i < n
                &&& visits(metadata, asset, line, i)
                &&& #[trigger] artifact_at(metadata, line[i]) == met
                &&& forall|j: int|
                    i < j < n && #[trigger] visits(metadata, asset, line, j) ==> artifact_at(
                        metadata,
                        line[j],
                    ) is None
            };
        assert(artifact_at(metadata, line[i]) == met);
    } else {
        assert forall|i: int| 0 <= i < n + 1 implies (#[trigger] artifact_at(
            metadata,
            line[i],
        )) is None by {
        }
    }
}

/// A walk goes in breadth-first order over all build dependencies. It is done when
/// the line has come to an end, and ends with the hash of the last one visited that
/// has an artifact. Until then it is pending after its steps, one for each asset
/// in line. It fails at the first record that cannot be read, and is aborted at the
/// first with something else than a name as a build dependency.
pub proof fn law_walk_breadth_first(
    metadata: Map<Key, Field<RecordModel>>,
    asset: Key,
    steps: nat,
)
    ensures
        match walk(metadata, asset, seq![asset], None, steps) {
            Progress::Done(met) => exists|n: nat|
                n <= steps && #[trigger] walked_to_end(metadata, asset, n, met) && reads_up_to(
                    metadata,
                    asset,
                    n,
                ),
            Progress::Pending => breadth_first(metadata, asset, steps).len() > steps && reads_up_to(
                metadata,
                asset,
                steps,
            ),
            Progress::Failed(e) => exists|n: nat|
                n < steps && #[trigger] comes_to(metadata, asset, n) && unreadable(
                    metadata[breadth_first(metadata, asset, n)[n as int]],
                ) == Some(e) && reads_up_to(metadata, asset, n),
            Progress::Aborted => exists|n: nat|
                n < steps && #[trigger] comes_to(metadata, asset, n) && unreadable(
                    metadata[breadth_first(metadata, asset, n)[n as int]],
                ) is None && !names_alone(
                    refs_at(metadata, breadth_first(metadata, asset, n)[n as int]),
                ) && reads_up_to(metadata, asset, n),
        },
{
    assert(breadth_first(metadata, asset, 0).skip(0) =~= seq![asset]);
    lemma_walk_line(metadata, asset, seq![asset], None, steps, 0);
}

/// Whether each asset on a path is named as a build dependency in the record of the
/// one before it.
pub open spec fn is_dep_path(metadata: Map<Key, Field<RecordModel>>, path: Seq<Key>) -> bool {
    forall|i: int|
        0 <= i < path.len() - 1 ==> named_dep(metadata, #[trigger] path[i], path[i + 1])
}

/// Whether `id` is `asset`, or a build dependency of it, or one of that, and so on.
pub open spec fn built_from(metadata: Map<Key, Field<RecordModel>>, asset: Key, id: Key) -> bool {
    exists|path: Seq<Key>|
        {
            &&& path.len() > 0
            &&& path.first() == asset
            &&& path.last() == id
            &&& #[trigger] is_dep_path(metadata, path)
        }
}

/// A build dependency of what an asset is built from is one of it.
proof fn lemma_built_from_step(
    metadata: Map<Key, Field<RecordModel>>,
    asset: Key,
    id: Key,
    dep: Key,
)
    requires
        built_from(metadata, asset, id),
        named_dep(metadata, id, dep),
    ensures
        built_from(metadata, asset, dep),
{
    let path = choose|path: Seq<Key>|
        {
            &&& path.len() > 0
            &&& path.first() == asset
            &&& path.last() == id
            &&& #[trigger] is_dep_path(metadata, path)
        };
    let longer = path.push(dep);
    assert forall|i: int| 0 <= i < longer.len() - 1 implies named_dep(
        metadata,
        #[trigger] longer[i],
        longer[i + 1],
    ) by {
        if i < path.len() - 1 {
            assert(longer[i] == path[i]);
            assert(longer[i + 1] == path[i + 1]);
        }
    }
    assert(is_dep_path(metadata, longer));
}

/// All that is in line is what the asset is built from.
proof fn lemma_line_built_from(
    metadata: Map<Key, Field<RecordModel>>,
    asset: Key,
    n: nat,
    i: int,
)
    requires
        reads_up_to(metadata, asset, n),
        0 <= i < breadth_first(metadata, asset, n).len(),
    ensures
        built_from(metadata, asset, breadth_first(metadata, asset, n)[i]),
    decreases n,
{
    if n == 0 {
        assert(is_dep_path(metadata, seq![asset]));
    } else {
        let before = (n - 1) as nat;
        let line = breadth_first(metadata, asset, before);
        assert(reads_up_to(metadata, asset, before));
        if i < line.len() {
            lemma_line_built_from(metadata, asset, before, i);
        } else {
            let id = line[before as int];
            assert(comes_to(metadata, asset, before));
            assert(visit_reads(metadata, asset, before));
            lemma_line_built_from(metadata, asset, before, before as int);
            let k = i - line.len();
            let refs = refs_at(metadata, id);
            assert(refs[k] is Uuid);
            assert(refs.contains(refs[k]));
            lemma_built_from_step(metadata, asset, id, breadth_first(metadata, asset, n)[i]);
        }
    }
}

/// What is in a line that came to its end, and has a record, was read, and its
/// build dependencies are in the line too.
proof fn lemma_line_closed(
    metadata: Map<Key, Field<RecordModel>>,
    asset: Key,
    n: nat,
    i: int,
    dep: Key,
)
    requires
        breadth_first(metadata, asset, n).len() == n,
        reads_up_to(metadata, asset, n),
        0 <= i < n,
        metadata.contains_key(breadth_first(metadata, asset, n)[i]),
    ensures
        unreadable(metadata[breadth_first(metadata, asset, n)[i]]) is None,
        names_alone(refs_at(metadata, breadth_first(metadata, asset, n)[i])),
        named_dep(metadata, breadth_first(metadata, asset, n)[i], dep) ==> breadth_first(
            metadata,
            asset,
            n,
        ).contains(dep),
    decreases i,
{
    let line = breadth_first(metadata, asset, n);
    lemma_line_grows(metadata, asset, 0, n);
    assert(line[0] == asset);
    if line[i] == asset && i > 0 {
        lemma_line_closed(metadata, asset, n, 0, dep);
    } else {
        let at = i as nat;
        lemma_line_grows(metadata, asset, at, n);
        lemma_line_grows(metadata, asset, at + 1, n);
        lemma_line_long(metadata, asset, n, at);
        let then = breadth_first(metadata, asset, at);
        assert(then[i] == line[i]);
        assert(visits(metadata, asset, then, i));
        assert(comes_to(metadata, asset, at));
        assert(visit_reads(metadata, asset, at));
        if named_dep(metadata, line[i], dep) {
            let refs = refs_at(metadata, line[i]);
            let k = choose|k: int| 0 <= k < refs.len() && refs[k] == StoredRefModel::Uuid(dep);
            let next = breadth_first(metadata, asset, at + 1);
            assert(next == then + deps_at(metadata, then[i]));
            assert(next[then.len() + k] == dep);
            assert(line[then.len() + k] == dep);
        }
    }
}

/// A line that is `n` long after `n` turns was longer than any number of turns
/// before.
proof fn lemma_line_long(metadata: Map<Key, Field<RecordModel>>, asset: Key, n: nat, i: nat)
    requires
        breadth_first(metadata, asset, n).len() == n,
        i < n,
    ensures
        breadth_first(metadata, asset, i).len() > i,
    decreases n - i,
{
    let line = breadth_first(metadata, asset, i);
    if line.len() <= i {
        lemma_line_ended(metadata, asset, i, n);
    }
}

/// A line that came to its end stays as it is.
proof fn lemma_line_ended(metadata: Map<Key, Field<RecordModel>>, asset: Key, n: nat, more: nat)
    requires
        breadth_first(metadata, asset, n).len() <= n <= more,
    ensures
        breadth_first(metadata, asset, more) == breadth_first(metadata, asset, n),
    decreases more - n,
{
    if n < more {
        lemma_line_ended(metadata, asset, n, (more - 1) as nat);
    }
}

/// Everything that an asset is built from is in its line.
proof fn lemma_path_in_line(
    metadata: Map<Key, Field<RecordModel>>,
    asset: Key,
    n: nat,
    path: Seq<Key>,
    i: int,
)
    requires
        breadth_first(metadata, asset, n).len() == n,
        reads_up_to(metadata, asset, n),
        path.len() > 0,
        path.first() == asset,
        is_dep_path(metadata, path),
        0 <= i < path.len(),
    ensures
        breadth_first(metadata, asset, n).contains(path[i]),
    decreases i,
{
    let line = breadth_first(metadata, asset, n);
    if i == 0 {
        lemma_line_grows(metadata, asset, 0, n);
        assert(line[0] == asset);
    } else {
        lemma_path_in_line(metadata, asset, n, path, i - 1);
        let k = choose|k: int| 0 <= k < line.len() && line[k] == path[i - 1];
        assert(named_dep(metadata, path[i - 1], path[i - 1 + 1]));
        lemma_line_closed(metadata, asset, n, k, path[i]);
    }
}

/// A walk that is done has read the records of everything that the asset is built
/// from: each can be read and names its build dependencies. It ends with the hash
/// of the artifact of one of these, and without a hash only if none has one.
pub proof fn law_walk_visits_all(
    metadata: Map<Key, Field<RecordModel>>,
    asset: Key,
    steps: nat,
    met: Option<Seq<u8>>,
)
    requires
        walk(metadata, asset, seq![asset], None, steps) == Progress::Done(met),
    ensures
        forall|id: Key|
            #![trigger built_from(metadata, asset, id)]
            built_from(metadata, asset, id) && metadata.contains_key(id) ==> unreadable(
                metadata[id],
            ) is None && names_alone(refs_at(metadata, id)),
        met matches Some(hash) ==> exists|id: Key|
            #![trigger built_from(metadata, asset, id)]
            built_from(metadata, asset, id) && artifact_at(metadata, id) == met,
        met is None ==> forall|id: Key|
            #![trigger built_from(metadata, asset, id)]
            built_from(metadata, asset, id) ==> artifact_at(metadata, id) is None,
{
    law_walk_breadth_first(metadata, asset, steps);
    let n = choose|n: nat|
        n <= steps && #[trigger] walked_to_end(metadata, asset, n, met) && reads_up_to(
            metadata,
            asset,
            n,
        );
    let line = breadth_first(metadata, asset, n);
    assert forall|id: Key|
        #![trigger built_from(metadata, asset, id)]
        built_from(metadata, asset, id) implies (metadata.contains_key(id) ==> unreadable(
        metadata[id],
    ) is None && names_alone(refs_at(metadata, id))) && (met is None ==> artifact_at(
        metadata,
        id,
    ) is None) by {
        let path = choose|path: Seq<Key>|
            {
                &&& path.len() > 0
                &&& path.first() == asset
                &&& path.last() == id
                &&& #[trigger] is_dep_path(metadata, path)
            };
        lemma_path_in_line(metadata, asset, n, path, path.len() - 1);
        let k = choose|k: int| 0 <= k < line.len() && line[k] == id;
        if metadata.contains_key(id) {
            lemma_line_closed(metadata, asset, n, k, id);
        }
        assert(met is None ==> artifact_at(metadata, line[k]) is None);
    }
    if met is Some {
        let i = choose|i: int|
            {
                &&& 0 <= i < n
                &&& visits(metadata, asset, line, i)
                &&& #[trigger] artifact_at(metadata, line[i]) == met
                &&& forall|j: int|
                    i < j < n && #[trigger] visits(metadata, asset, line, j) ==> artifact_at(
                        metadata,
                        line[j],
                    ) is None
            };
        lemma_line_built_from(metadata, asset, n, i);
    }
}

/// A walk from an asset whose build dependencies all have an artifact and no build
/// dependencies of their own is done after one step for each of them and one for
/// the asset, and ends with the artifact of the last.
pub proof fn law_walk_over_leaves(
    metadata: Map<Key, Field<RecordModel>>,
    asset: Key,
    steps: nat,
)
    requires
        metadata.contains_key(asset),
        unreadable(metadata[asset]) is None,
        names_alone(refs_at(metadata, asset)),
        refs_at(metadata, asset).len() > 0,
        refs_at(metadata, asset).len() < steps,
        forall|i: int|
            0 <= i < refs_at(metadata, asset).len() ==> {
                let dep = #[trigger] deps_at(metadata, asset)[i];
                &&& dep != asset
                &&& metadata.contains_key(dep)
                &&& unreadable(metadata[dep]) is None
                &&& artifact_at(metadata, dep) is Some
                &&& refs_at(metadata, dep).len() == 0
            },
    ensures
        walk(metadata, asset, seq![asset], None, steps) == Progress::Done(
            artifact_at(metadata, deps_at(metadata, asset).last()),
        ),
{
    let deps = deps_at(metadata, asset);
    let line = seq![asset] + deps;
    assert(breadth_first(metadata, asset, 0) == seq![asset]);
    assert(visits(metadata, asset, seq![asset], 0));
    assert(breadth_first(metadata, asset, 1) == line);
    lemma_leaves_line(metadata, asset, deps.len() + 1);
    let n = (deps.len() + 1) as nat;
    assert(reads_up_to(metadata, asset, n)) by {
        assert forall|i: nat| i < n && #[trigger] comes_to(metadata, asset, i) implies visit_reads(
            metadata,
            asset,
            i,
        ) by {
            if i == 0 {
            } else {
                lemma_leaves_line(metadata, asset, i);
                assert(line[i as int] == deps[i - 1]);
            }
        }
    }
    lemma_line_ended(metadata, asset, n, steps);
    law_walk_breadth_first(metadata, asset, steps);
    match walk(metadata, asset, seq![asset], None, steps) {
        Progress::Pending => {},
        Progress::Failed(e) => {
            let m = choose|m: nat|
                m < steps && #[trigger] comes_to(metadata, asset, m) && unreadable(
                    metadata[breadth_first(metadata, asset, m)[m as int]],
                ) == Some(e) && reads_up_to(metadata, asset, m);
            lemma_leaves_come(metadata, asset, m);
            assert(visit_reads(metadata, asset, m));
        },
        Progress::Aborted => {
            let m = choose|m: nat|
                m < steps && #[trigger] comes_to(metadata, asset, m) && unreadable(
                    metadata[breadth_first(metadata, asset, m)[m as int]],
                ) is None && !names_alone(
                    refs_at(metadata, breadth_first(metadata, asset, m)[m as int]),
                ) && reads_up_to(metadata, asset, m);
            lemma_leaves_come(metadata, asset, m);
            assert(visit_reads(metadata, asset, m));
        },
        Progress::Done(met) => {
            let m = choose|m: nat|
                m <= steps && #[trigger] walked_to_end(metadata, asset, m, met) && reads_up_to(
                    metadata,
                    asset,
                    m,
                );
            if m < n {
                if m > 0 {
                    lemma_leaves_line(metadata, asset, m);
                }
            } else {
                lemma_line_ended(metadata, asset, n, m);
            }
            assert(m == n);
            let last = deps.len() as int;
            assert(line[last] == deps[last - 1]);
            assert(visits(metadata, asset, line, last));
            if met is None {
                assert(artifact_at(metadata, line[last]) is None);
            } else {
                let i = choose|i: int|
                    {
                        &&& 0 <= i < n
                        &&& visits(metadata, asset, line, i)
                        &&& #[trigger] artifact_at(metadata, line[i]) == met
                        &&& forall|j: int|
                            i < j < n && #[trigger] visits(metadata, asset, line, j)
                                ==> artifact_at(metadata, line[j]) is None
                    };
                assert(i == last);
            }
        },
    }
}

/// The line over leaves is the asset and its build dependencies from the first turn
/// on.
proof fn lemma_leaves_line(metadata: Map<Key, Field<RecordModel>>, asset: Key, n: nat)
    requires
        metadata.contains_key(asset),
        1 <= n <= deps_at(metadata, asset).len() + 1,
        forall|i: int|
            0 <= i < deps_at(metadata, asset).len() ==> refs_at(
                metadata,
                #[trigger] deps_at(metadata, asset)[i],
            ).len() == 0,
    ensures
        breadth_first(metadata, asset, n) == seq![asset] + deps_at(metadata, asset),
    decreases n,
{
    let line = seq![asset] + deps_at(metadata, asset);
    if n == 1 {
        assert(breadth_first(metadata, asset, 0) == seq![asset]);
        assert(visits(metadata, asset, seq![asset], 0));
    } else {
        lemma_leaves_line(metadata, asset, (n - 1) as nat);
        assert(line[n - 1] == deps_at(metadata, asset)[n - 2]);
        assert(line + deps_at(metadata, line[n - 1]) =~= line);
    }
}

/// The walk over leaves comes to nothing behind the line.
proof fn lemma_leaves_come(metadata: Map<Key, Field<RecordModel>>, asset: Key, m: nat)
    requires
        metadata.contains_key(asset),
        comes_to(metadata, asset, m),
        forall|i: int|
            0 <= i < deps_at(metadata, asset).len() ==> refs_at(
                metadata,
                #[trigger] deps_at(metadata, asset)[i],
            ).len() == 0,
    ensures
        m < deps_at(metadata, asset).len() + 1,
{
    let n = (deps_at(metadata, asset).len() + 1) as nat;
    if m >= n {
        lemma_leaves_line(metadata, asset, n);
        lemma_line_ended(metadata, asset, n, m);
    }
}

}
