use tabletd_core::event_model::{
    AuxButtonEvent, DeviceLimits, MalformedEvent, PenLocation, PenState, TabletEvent, Tilt,
    ToolType, WheelDirection,
};
use tabletd_core::event_router::{
    DeviceId, GestureAction, GestureBinding, GestureConfig, GesturePattern, Router, RouterState,
    SessionAction, Tag,
};

fn aux(button_id: u8, pressed: bool) -> TabletEvent {
    TabletEvent::AuxButton(AuxButtonEvent { button_id, pressed })
}

fn pen_sample() -> TabletEvent {
    TabletEvent::PenEvent(PenState {
        x: 100,
        y: 200,
        pressure: 512,
        tilt: Tilt { x: 5, y: -3 },
        tool: ToolType::Pen,
        location: PenLocation::Pressed,
    })
}

fn toggle_config() -> GestureConfig {
    GestureConfig {
        bindings: vec![
            GestureBinding {
                pattern: GesturePattern::AuxButton { button_id: 1, pressed: true },
                action: GestureAction::Engage,
            },
            GestureBinding {
                pattern: GesturePattern::AuxButton { button_id: 1, pressed: false },
                action: GestureAction::Disengage,
            },
        ],
        idle_timeout_ms: None,
    }
}

#[test]
fn engage_boundary_tags() {
    let mut router = Router::new(toggle_config());
    let dev = DeviceId(7);

    let (engage, act1) = router.route(dev, aux(1, true));
    assert_eq!(engage.tag, Tag::Propagate);
    assert_eq!(act1, SessionAction::AcquireOverlay);

    let (middle, act2) = router.route(dev, pen_sample());
    assert_eq!(middle.tag, Tag::Suppressed);
    assert_eq!(act2, SessionAction::NoAction);

    let (disengage, act3) = router.route(dev, aux(1, false));
    assert_eq!(disengage.tag, Tag::Suppressed);
    assert_eq!(act3, SessionAction::ReleaseOverlay);

    assert_eq!(router.device_state(dev), RouterState::Idle);
}

#[test]
fn router_never_drops_events() {
    let mut router = Router::new(toggle_config());
    let dev = DeviceId(1);
    let input = vec![
        aux(1, true),
        pen_sample(),
        TabletEvent::Wheel(WheelDirection::Clockwise),
        aux(1, false),
        TabletEvent::Unknown,
    ];
    let out = router.route_all(dev, &input);
    assert_eq!(out.len(), input.len());
    for (routed, ev) in out.iter().zip(input.iter()) {
        assert_eq!(&routed.payload, ev);
        assert_eq!(routed.source, dev);
    }
}

#[test]
fn devices_are_isolated() {
    let mut router = Router::new(toggle_config());
    let pad = DeviceId(1);
    let other = DeviceId(2);

    let (_, act) = router.route(pad, aux(1, true));
    assert_eq!(act, SessionAction::AcquireOverlay);
    assert_eq!(router.device_state(pad), RouterState::SessionActive);

    let (routed, _) = router.route(other, pen_sample());
    assert_eq!(routed.tag, Tag::Propagate);
    assert_eq!(router.device_state(other), RouterState::Idle);
}

#[test]
fn engage_while_active_changes_nothing() {
    let mut router = Router::new(toggle_config());
    let dev = DeviceId(3);
    router.route(dev, aux(1, true));
    let (routed, act) = router.route(dev, aux(1, true));
    assert_eq!(routed.tag, Tag::Suppressed);
    assert_eq!(act, SessionAction::NoAction);
    assert_eq!(router.device_state(dev), RouterState::SessionActive);
}

#[test]
fn dismiss_releases_active_session() {
    let mut router = Router::new(toggle_config());
    let dev = DeviceId(4);
    router.route(dev, aux(1, true));
    assert_eq!(router.dismiss(dev), SessionAction::ReleaseOverlay);
    assert_eq!(router.device_state(dev), RouterState::Idle);
    assert_eq!(router.dismiss(dev), SessionAction::NoAction);
}

#[test]
fn idle_timeout_expires_sessions() {
    let mut config = toggle_config();
    config.idle_timeout_ms = Some(1000);
    let mut router = Router::new(config);
    let dev = DeviceId(5);
    assert!(!router.session_expired(dev, 5000));
    router.route(dev, aux(1, true));
    assert!(!router.session_expired(dev, 999));
    assert!(router.session_expired(dev, 1000));

    let mut no_timeout = Router::new(toggle_config());
    no_timeout.route(dev, aux(1, true));
    assert!(!no_timeout.session_expired(dev, u64::MAX));
}

#[test]
fn wheel_gesture_can_engage() {
    let config = GestureConfig {
        bindings: vec![GestureBinding {
            pattern: GesturePattern::Wheel { direction: WheelDirection::Clockwise },
            action: GestureAction::Engage,
        }],
        idle_timeout_ms: None,
    };
    let mut router = Router::new(config);
    let dev = DeviceId(6);
    let (routed, act) = router.route(dev, TabletEvent::Wheel(WheelDirection::CounterClockwise));
    assert_eq!(routed.tag, Tag::Propagate);
    assert_eq!(act, SessionAction::NoAction);
    let (routed, act) = router.route(dev, TabletEvent::Wheel(WheelDirection::Clockwise));
    assert_eq!(routed.tag, Tag::Propagate);
    assert_eq!(act, SessionAction::AcquireOverlay);
}

#[test]
fn wheel_direction_from_raw_code() {
    assert!(matches!(WheelDirection::from(0u8), WheelDirection::Clockwise));
    assert!(matches!(WheelDirection::from(1u8), WheelDirection::CounterClockwise));
    assert!(matches!(WheelDirection::from(7u8), WheelDirection::Clockwise));
}

#[test]
fn default_event_is_unknown() {
    assert!(matches!(TabletEvent::default(), TabletEvent::Unknown));
}

fn limits() -> DeviceLimits {
    DeviceLimits { max_x: 1000, max_y: 800, max_pressure: 4096, max_tilt_x: 60, max_tilt_y: 60 }
}

#[test]
fn validation_accepts_in_range_samples() {
    assert_eq!(tabletd_core::event_model::validate_event(&pen_sample(), &limits()), Ok(()));
    assert_eq!(tabletd_core::event_model::validate_event(&aux(9, true), &limits()), Ok(()));
    assert_eq!(
        tabletd_core::event_model::validate_event(&TabletEvent::Unknown, &limits()),
        Ok(())
    );
}

#[test]
fn validation_classifies_each_failure() {
    let mut sample = PenState {
        x: 100,
        y: 200,
        pressure: 512,
        tilt: Tilt { x: 5, y: -3 },
        tool: ToolType::Eraser,
        location: PenLocation::Floating,
    };
    sample.x = 1001;
    assert_eq!(
        tabletd_core::event_model::validate_event(&TabletEvent::PenEvent(sample), &limits()),
        Err(MalformedEvent::CoordinateOutOfRange)
    );
    sample.x = 100;
    sample.pressure = 5000;
    assert_eq!(
        tabletd_core::event_model::validate_event(&TabletEvent::PenEvent(sample), &limits()),
        Err(MalformedEvent::PressureOutOfRange)
    );
    sample.pressure = 512;
    sample.tilt = Tilt { x: -61, y: 0 };
    assert_eq!(
        tabletd_core::event_model::validate_event(&TabletEvent::PenEvent(sample), &limits()),
        Err(MalformedEvent::TiltOutOfRange)
    );
}

#[test]
fn validation_bounds_are_inclusive() {
    let sample = PenState {
        x: 1000,
        y: 800,
        pressure: 4096,
        tilt: Tilt { x: 60, y: -60 },
        tool: ToolType::Pen,
        location: PenLocation::Leaved,
    };
    assert_eq!(
        tabletd_core::event_model::validate_event(&TabletEvent::PenEvent(sample), &limits()),
        Ok(())
    );
}

#[test]
fn empty_input_routes_to_empty_output() {
    let mut router = Router::new(toggle_config());
    let out = router.route_all(DeviceId(8), &Vec::new());
    assert!(out.is_empty());
}
