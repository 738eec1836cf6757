//! What becomes of listeners when they are told of a commit.
use vstd::prelude::*;

use crate::change::AssetBatchEvent;
use crate::hub::{all_told, disconnected, ListenerID};
use crate::listener::{Delivery, Listener};

verus! {

/// Of the listeners, exactly those are forgotten for which a delivery came back as
/// disconnected. Any other stays, and as it is.
pub proof fn law_only_disconnected_forgotten(
    listeners: Map<ListenerID, Listener>,
    deliveries: Seq<(ListenerID, Delivery)>,
    id: ListenerID,
)
    ensures
        ({
            let left = listeners.remove_keys(disconnected(deliveries));
            &&& left.contains_key(id) <==> listeners.contains_key(id) && !deliveries.contains(
                (id, Delivery::Disconnected),
            )
            &&& left.contains_key(id) ==> left[id] == listeners[id]
        }),
{
    let gone = disconnected(deliveries);
    if deliveries.contains((id, Delivery::Disconnected)) {
        let i = choose|i: int|
            0 <= i < deliveries.len() && deliveries[i] == (id, Delivery::Disconnected);
        assert(gone.contains(id));
    }
    if gone.contains(id) {
        let i = choose|i: int|
            0 <= i < deliveries.len() && #[trigger] deliveries[i] == (id, Delivery::Disconnected);
        assert(deliveries.contains((id, Delivery::Disconnected)));
    }
}

/// When all listeners were told, the same ones are there as before. Each has one
/// delivery and no second one, and its record of what it was told grew by the
/// commit and that delivery. No delivery is for anybody else.
pub proof fn law_each_told_once(
    before: Map<ListenerID, Listener>,
    after: Map<ListenerID, Listener>,
    deliveries: Seq<(ListenerID, Delivery)>,
)
    requires
        all_told(before, after, deliveries),
    ensures
        after.dom() == before.dom(),
        forall|id: ListenerID| #[trigger]
            before.contains_key(id) ==> exists|i: int|
                0 <= i < deliveries.len() && (#[trigger] deliveries[i]).0 == id,
        forall|i: int, j: int|
            0 <= i < j < deliveries.len() ==> (#[trigger] deliveries[i]).0 != (
            #[trigger] deliveries[j]).0,
        forall|i: int|
            0 <= i < deliveries.len() ==> {
                let id = (#[trigger] deliveries[i]).0;
                &&& before.contains_key(id)
                &&& after[id].told() == before[id].told().push(
                    (AssetBatchEvent::Commit, deliveries[i].1),
                )
                &&& after[id].registered() == before[id].registered()
            },
{
    assert forall|id: ListenerID| #[trigger] before.contains_key(id) implies exists|i: int|
        0 <= i < deliveries.len() && (#[trigger] deliveries[i]).0 == id by {
        assert(before.dom().contains(id));
    }
    assert forall|i: int| 0 <= i < deliveries.len() implies {
        let id = (#[trigger] deliveries[i]).0;
        &&& before.contains_key(id)
        &&& after[id].told() == before[id].told().push((AssetBatchEvent::Commit, deliveries[i].1))
        &&& after[id].registered() == before[id].registered()
    } by {
        assert(before.dom().contains(deliveries[i].0));
    }
}

/// However many listeners there are, one whose delivery was sent, or found the
/// channel full, is there after a commit, was told of it once, and is the one that
/// was registered. One whose delivery came back as disconnected is not there.
pub proof fn law_listeners_kept(
    before: Map<ListenerID, Listener>,
    told: Map<ListenerID, Listener>,
    deliveries: Seq<(ListenerID, Delivery)>,
    i: int,
)
    requires
        all_told(before, told, deliveries),
        0 <= i < deliveries.len(),
    ensures
        ({
            let (id, delivery) = deliveries[i];
            let after = told.remove_keys(disconnected(deliveries));
            &&& after.contains_key(id) <==> delivery != Delivery::Disconnected
            &&& delivery != Delivery::Disconnected ==> after[id].told() == before[id].told().push(
                (AssetBatchEvent::Commit, delivery),
            ) && after[id].registered() == before[id].registered()
        }),
{
    law_each_told_once(before, told, deliveries);
    let (id, delivery) = deliveries[i];
    law_only_disconnected_forgotten(told, deliveries, id);
    assert(before.contains_key(deliveries[i].0));
    assert(before.dom().contains(id));
    assert(told.dom().contains(id));
    if deliveries.contains((id, Delivery::Disconnected)) {
        let j = choose|j: int|
            0 <= j < deliveries.len() && deliveries[j] == (id, Delivery::Disconnected);
        assert(deliveries[j].0 == deliveries[i].0);
        assert(i == j);
    }
    if delivery == Delivery::Disconnected {
        assert(deliveries[i] == (id, Delivery::Disconnected));
    }
}

}
