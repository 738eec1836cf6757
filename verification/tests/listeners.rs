use asset_hub::change::AssetBatchEvent;
use asset_hub::hub::AssetHub;
use asset_hub::listener::Delivery;
use futures::sync::mpsc::channel;
use futures::Stream;

#[test]
fn listeners_get_rising_numbers() {
    let mut hub = AssetHub::new();
    let (first, _keep_first) = channel(1);
    let (second, _keep_second) = channel(1);
    assert_eq!(hub.register_listener(first), 1);
    assert_eq!(hub.register_listener(second), 2);
}

#[test]
fn a_commit_reaches_the_receiver() {
    let mut hub = AssetHub::new();
    let (sender, receiver) = channel(1);
    hub.register_listener(sender);
    hub.notify_listeners();
    let event = receiver.wait().next().unwrap().unwrap();
    assert_eq!(event, AssetBatchEvent::Commit);
}

#[test]
fn a_dropped_listener_is_given_back_once() {
    let mut hub = AssetHub::new();
    let (sender, receiver) = channel(1);
    let id = hub.register_listener(sender);
    assert!(hub.drop_listener(id + 1).is_none());
    assert!(hub.drop_listener(id).is_some());
    assert!(hub.drop_listener(id).is_none());
    hub.notify_listeners();
    assert!(receiver.wait().next().is_none());
    let (again, _keep) = channel(1);
    assert_eq!(hub.register_listener(again), id + 1);
}

#[test]
fn what_came_of_each_attempt_is_told_apart() {
    let mut hub = AssetHub::new();
    let (open, _keep) = channel(4);
    let (small, _keep_small) = channel(0);
    let (closed, gone) = channel(4);
    drop(gone);
    let open = hub.register_listener(open);
    let small = hub.register_listener(small);
    let closed = hub.register_listener(closed);
    let mut first = hub.send_commit();
    first.sort_by_key(|d| d.0);
    assert_eq!(
        first,
        vec![
            (open, Delivery::Sent),
            (small, Delivery::Sent),
            (closed, Delivery::Disconnected),
        ]
    );
    let mut second = hub.send_commit();
    second.sort_by_key(|d| d.0);
    assert_eq!(
        second,
        vec![
            (open, Delivery::Sent),
            (small, Delivery::Full),
            (closed, Delivery::Disconnected),
        ]
    );
}

#[test]
fn only_listeners_without_a_receiver_are_forgotten() {
    let mut hub = AssetHub::new();
    let (small, _keep) = channel(0);
    let (closed, gone) = channel(4);
    drop(gone);
    let small = hub.register_listener(small);
    let closed = hub.register_listener(closed);
    hub.notify_listeners();
    hub.notify_listeners();
    assert!(hub.drop_listener(closed).is_none());
    assert!(hub.drop_listener(small).is_some());
}

#[test]
fn forgetting_goes_by_what_was_found() {
    let mut hub = AssetHub::new();
    let (a, _keep_a) = channel(1);
    let (b, _keep_b) = channel(1);
    let a = hub.register_listener(a);
    let b = hub.register_listener(b);
    hub.drop_disconnected(&vec![
        (a, Delivery::Disconnected),
        (b, Delivery::Full),
        (77, Delivery::Disconnected),
    ]);
    assert!(hub.drop_listener(a).is_none());
    assert!(hub.drop_listener(b).is_some());
}

#[test]
fn each_commit_is_sent_once() {
    let mut hub = AssetHub::new();
    let (sender, receiver) = channel(8);
    let id = hub.register_listener(sender);
    hub.notify_listeners();
    hub.notify_listeners();
    hub.notify_listeners();
    drop(hub.drop_listener(id));
    assert_eq!(receiver.wait().count(), 3);
}

#[test]
fn without_listeners_nothing_is_sent() {
    let mut hub = AssetHub::new();
    assert!(hub.send_commit().is_empty());
    hub.notify_listeners();
    let (sender, receiver) = channel(8);
    let id = hub.register_listener(sender);
    assert_eq!(id, 1);
    drop(hub.drop_listener(id));
    assert_eq!(receiver.wait().count(), 0);
}

#[test]
fn a_hub_can_be_handed_to_another_thread() {
    fn is_send<T: Send>(_: &T) {}
    is_send(&AssetHub::new());
}
