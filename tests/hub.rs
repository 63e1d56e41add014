use grow::hub::ReloadHub;

#[test]
fn subscriber_receives_two_signals_in_order() {
    let mut hub = ReloadHub::new(16);
    let id = hub.subscribe().unwrap();
    assert_eq!(hub.publish(), 1);
    assert_eq!(hub.publish(), 1);
    assert_eq!(hub.pending(id), Some(2));
    assert!(hub.take_signal(id));
    assert!(hub.take_signal(id));
    assert!(!hub.take_signal(id));
}

#[test]
fn overflow_keeps_at_least_one_signal() {
    let mut hub = ReloadHub::new(1);
    let id = hub.subscribe().unwrap();
    hub.publish();
    hub.publish();
    hub.publish();
    assert_eq!(hub.pending(id), Some(1));
    assert!(hub.take_signal(id));
    assert!(!hub.take_signal(id));
}

#[test]
fn disconnect_releases_the_subscriber() {
    let mut hub = ReloadHub::new(4);
    let a = hub.subscribe().unwrap();
    let b = hub.subscribe().unwrap();
    assert_ne!(a, b);
    assert_eq!(hub.subscriber_count(), 2);
    hub.disconnect(a);
    assert_eq!(hub.subscriber_count(), 1);
    assert_eq!(hub.publish(), 1);
    assert_eq!(hub.pending(a), None);
    assert_eq!(hub.pending(b), Some(1));
    hub.disconnect(a);
    assert_eq!(hub.subscriber_count(), 1);
}

#[test]
fn publish_without_subscribers_is_discarded() {
    let mut hub = ReloadHub::new(4);
    assert_eq!(hub.publish(), 0);
    let id = hub.subscribe().unwrap();
    assert_eq!(hub.pending(id), Some(0));
}
