//! One listener: the channel through which it is told things, and what it was
//! told.
use futures::sync::mpsc::Sender;
use vstd::prelude::*;

use crate::change::AssetBatchEvent;

verus! {

/// The sending half of a channel of the `futures` crate. Nothing is known of
/// what is inside: its receiver may be read from or dropped at any time.
#[verifier::external_type_specification]
#[verifier::external_body]
#[verifier::reject_recursive_types(T)]
pub struct ExSender<T>(futures::sync::mpsc::Sender<T>);

/// What came of an attempt to tell a listener something.
#[derive(Clone, Copy, PartialEq, Eq, Debug, Structural)]
pub enum Delivery {
    /// The event is in the channel.
    Sent,
    /// The channel has no room for it now.
    Full,
    /// The receiver is gone.
    Disconnected,
}

/// A listener.
pub struct Listener {
    sender: Sender<AssetBatchEvent>,
    registered: Ghost<Sender<AssetBatchEvent>>,
    told: Ghost<Seq<(AssetBatchEvent, Delivery)>>,
}

impl Listener {
    /// The sender as it is now.
    pub closed spec fn sender(&self) -> Sender<AssetBatchEvent> {
        self.sender
    }

    /// The sender as it was when the listener was taken on.
    pub closed spec fn registered(&self) -> Sender<AssetBatchEvent> {
        self.registered@
    }

    /// What was handed to the sender since then, and what came of each attempt.
    pub closed spec fn told(&self) -> Seq<(AssetBatchEvent, Delivery)> {
        self.told@
    }

    /// A listener that was told nothing yet.
    pub fn new(sender: Sender<AssetBatchEvent>) -> (listener: Listener)
        ensures
            listener.sender() == sender,
            listener.registered() == sender,
            listener.told() == Seq::<(AssetBatchEvent, Delivery)>::empty(),
    {
        let ghost registered = sender;
        Listener { sender, registered: Ghost(registered), told: Ghost(Seq::empty()) }
    }

    /// Gives the sender back.
    pub fn into_sender(self) -> (sender: Sender<AssetBatchEvent>)
        ensures
            sender == self.sender(),
    {
        self.sender
    }
}

/// `futures::sync::mpsc::Sender::try_send`: puts the event into the channel if
/// it can do so at once, and says otherwise whether the channel was full or its
/// receiver gone. The listener's record of what it was told grows by this event
/// and what came of it, and the listener stays the one that was taken on. Which
/// of the three comes back rests on the receiver, so nothing is claimed of it, nor
/// of the sender afterwards.
#[verifier::external_body]
pub(crate) fn try_send(listener: &mut Listener, event: AssetBatchEvent) -> (delivery: Delivery)
    ensures
        final(listener).told() == old(listener).told().push((event, delivery)),
        final(listener).registered() == old(listener).registered(),
{
    match listener.sender.try_send(event) {
        Ok(()) => Delivery::Sent,
        Err(err) => if err.is_disconnected() {
            Delivery::Disconnected
        } else {
            Delivery::Full
        },
    }
}

/// Whether `after` is the listener `before` after it was told one more thing, and
/// this came of it.
pub open spec fn told_once(
    before: Listener,
    after: Listener,
    event: AssetBatchEvent,
    delivery: Delivery,
) -> bool {
    &&& after.told() == before.told().push((event, delivery))
    &&& after.registered() == before.registered()
}

}
