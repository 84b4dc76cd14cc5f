use tabletd_core::event_dispatcher::{Dispatcher, FilterRule, RuleAction};
use tabletd_core::event_model::{AuxButtonEvent, EventKind, TabletEvent, WheelDirection};
use tabletd_core::event_router::{DeviceId, RoutedEvent, Tag};

fn routed(device: u64, payload: TabletEvent, tag: Tag) -> RoutedEvent {
    RoutedEvent { source: DeviceId(device), payload, tag }
}

fn aux(button_id: u8, pressed: bool) -> TabletEvent {
    TabletEvent::AuxButton(AuxButtonEvent { button_id, pressed })
}

fn exclude_suppressed() -> Vec<FilterRule> {
    vec![FilterRule {
        action: RuleAction::Exclude,
        device: None,
        kind: None,
        tag: Some(Tag::Suppressed),
    }]
}

#[test]
fn suppressed_events_reach_only_opted_in_subscribers() {
    let mut dispatcher = Dispatcher::new(16, 4);
    assert!(dispatcher.add_subscriber(1, exclude_suppressed()));
    assert!(dispatcher.add_subscriber(2, Vec::new()));

    let events = vec![
        routed(7, aux(1, true), Tag::Propagate),
        routed(7, aux(2, true), Tag::Suppressed),
        routed(7, aux(1, false), Tag::Suppressed),
    ];
    for ev in &events {
        dispatcher.dispatch(*ev);
    }

    let filtered = &dispatcher.subscribers[0];
    assert_eq!(filtered.queue.len(), 1);
    assert_eq!(filtered.queue[0], events[0]);

    let unfiltered = &dispatcher.subscribers[1];
    assert_eq!(unfiltered.queue.len(), 3);
    assert_eq!(unfiltered.queue, events);
}

#[test]
fn local_sink_sees_only_propagate() {
    let mut dispatcher = Dispatcher::new(8, 4);
    dispatcher.set_local_sink(true);
    assert!(dispatcher.dispatch(routed(1, aux(1, true), Tag::Propagate)));
    assert!(!dispatcher.dispatch(routed(1, aux(1, true), Tag::Suppressed)));
    dispatcher.set_local_sink(false);
    assert!(!dispatcher.dispatch(routed(1, aux(1, true), Tag::Propagate)));
}

#[test]
fn slow_local_sink_leaves_subscribers_alone() {
    let mut dispatcher = Dispatcher::new(8, 4);
    dispatcher.set_local_sink(true);
    assert!(dispatcher.add_subscriber(9, Vec::new()));

    dispatcher.dispatch(routed(1, aux(1, true), Tag::Propagate));
    // the sink never accepted within its budget
    dispatcher.record_local_delivery(false);
    assert_eq!(dispatcher.sink_warnings, 1);
    assert_eq!(dispatcher.subscribers[0].queue.len(), 1);
    assert_eq!(dispatcher.subscribers[0].dropped, 0);

    dispatcher.dispatch(routed(1, aux(2, true), Tag::Propagate));
    dispatcher.record_local_delivery(true);
    assert_eq!(dispatcher.sink_warnings, 1);
    assert_eq!(dispatcher.subscribers[0].queue.len(), 2);
}

#[test]
fn overflow_drops_oldest_and_counts() {
    let mut dispatcher = Dispatcher::new(2, 10);
    assert!(dispatcher.add_subscriber(1, Vec::new()));
    let first = routed(1, aux(1, true), Tag::Propagate);
    let second = routed(1, aux(2, true), Tag::Propagate);
    let third = routed(1, aux(3, true), Tag::Propagate);
    dispatcher.dispatch(first);
    dispatcher.dispatch(second);
    dispatcher.dispatch(third);

    let sub = &dispatcher.subscribers[0];
    assert_eq!(sub.queue, vec![second, third]);
    assert_eq!(sub.dropped, 1);
    assert_eq!(sub.consecutive_drops, 1);
    assert!(!sub.degraded);
}

#[test]
fn consecutive_drops_mark_degraded() {
    let mut dispatcher = Dispatcher::new(1, 2);
    assert!(dispatcher.add_subscriber(1, Vec::new()));
    dispatcher.dispatch(routed(1, aux(1, true), Tag::Propagate));
    dispatcher.dispatch(routed(1, aux(2, true), Tag::Propagate));
    assert!(!dispatcher.subscribers[0].degraded);
    dispatcher.dispatch(routed(1, aux(3, true), Tag::Propagate));
    assert!(dispatcher.subscribers[0].degraded);
    assert_eq!(dispatcher.subscribers[0].dropped, 2);
}

#[test]
fn successful_delivery_ends_a_drop_run() {
    let mut dispatcher = Dispatcher::new(1, 2);
    assert!(dispatcher.add_subscriber(1, Vec::new()));
    dispatcher.dispatch(routed(1, aux(1, true), Tag::Propagate));
    dispatcher.dispatch(routed(1, aux(2, true), Tag::Propagate));
    assert_eq!(dispatcher.subscribers[0].consecutive_drops, 1);

    // the transport drains the queue, so the next delivery succeeds
    assert!(dispatcher.next_outbound(1).is_some());
    dispatcher.dispatch(routed(1, aux(3, true), Tag::Propagate));
    assert_eq!(dispatcher.subscribers[0].consecutive_drops, 0);
    dispatcher.dispatch(routed(1, aux(4, true), Tag::Propagate));
    assert_eq!(dispatcher.subscribers[0].consecutive_drops, 1);
    assert!(!dispatcher.subscribers[0].degraded);
}

#[test]
fn filters_match_device_and_kind() {
    let mut dispatcher = Dispatcher::new(8, 4);
    let only_wheel_of_device_3 = vec![
        FilterRule {
            action: RuleAction::Include,
            device: Some(DeviceId(3)),
            kind: Some(EventKind::Wheel),
            tag: None,
        },
        FilterRule { action: RuleAction::Exclude, device: None, kind: None, tag: None },
    ];
    assert!(dispatcher.add_subscriber(1, only_wheel_of_device_3));

    dispatcher.dispatch(routed(3, aux(1, true), Tag::Propagate));
    dispatcher.dispatch(routed(4, TabletEvent::Wheel(WheelDirection::Clockwise), Tag::Propagate));
    dispatcher.dispatch(routed(3, TabletEvent::Wheel(WheelDirection::Clockwise), Tag::Suppressed));

    let sub = &dispatcher.subscribers[0];
    assert_eq!(sub.queue.len(), 1);
    assert_eq!(sub.queue[0].source, DeviceId(3));
    assert!(matches!(sub.queue[0].payload, TabletEvent::Wheel(_)));
}

#[test]
fn set_filter_takes_effect_immediately() {
    let mut dispatcher = Dispatcher::new(8, 4);
    assert!(dispatcher.add_subscriber(1, Vec::new()));
    dispatcher.dispatch(routed(1, aux(1, true), Tag::Suppressed));
    assert!(dispatcher.set_filter(1, exclude_suppressed()));
    dispatcher.dispatch(routed(1, aux(2, true), Tag::Suppressed));
    // the first suppressed event stays queued; the second never enters
    assert_eq!(dispatcher.subscribers[0].queue.len(), 1);
    assert!(!dispatcher.set_filter(99, Vec::new()));
}

#[test]
fn subscriber_lifecycle() {
    let mut dispatcher = Dispatcher::new(8, 4);
    assert!(dispatcher.add_subscriber(1, Vec::new()));
    assert!(!dispatcher.add_subscriber(1, Vec::new()));
    assert!(dispatcher.add_subscriber(2, Vec::new()));
    assert!(dispatcher.remove_subscriber(1));
    assert!(!dispatcher.remove_subscriber(1));
    assert_eq!(dispatcher.subscribers.len(), 1);
    assert_eq!(dispatcher.subscribers[0].id, 2);
}

#[test]
fn next_outbound_hands_events_in_order() {
    let mut dispatcher = Dispatcher::new(8, 4);
    assert!(dispatcher.add_subscriber(1, Vec::new()));
    let first = routed(1, aux(1, true), Tag::Propagate);
    let second = routed(1, aux(2, true), Tag::Propagate);
    dispatcher.dispatch(first);
    dispatcher.dispatch(second);
    assert_eq!(dispatcher.next_outbound(1), Some(first));
    assert_eq!(dispatcher.next_outbound(1), Some(second));
    assert_eq!(dispatcher.next_outbound(1), None);
    assert_eq!(dispatcher.next_outbound(42), None);
}

#[test]
fn rejected_events_are_not_drops() {
    let mut dispatcher = Dispatcher::new(1, 2);
    assert!(dispatcher.add_subscriber(1, exclude_suppressed()));
    dispatcher.dispatch(routed(1, aux(1, true), Tag::Propagate));
    // suppressed events bounce off the filter without touching the
    // full queue or the drop run
    dispatcher.dispatch(routed(1, aux(2, true), Tag::Suppressed));
    dispatcher.dispatch(routed(1, aux(3, true), Tag::Suppressed));
    let sub = &dispatcher.subscribers[0];
    assert_eq!(sub.queue.len(), 1);
    assert_eq!(sub.dropped, 0);
    assert_eq!(sub.consecutive_drops, 0);
    assert!(!sub.degraded);
}
