use tabletd_core::screen_overlay::{
    AcquireOutcome, BackendAction, BufferReply, ConfigureOutcome, DisplayInfo, LeaseConfig,
    LeaseError, OverlayManager, SurfaceLease,
};

fn display(id: u32, width: u32, height: u32) -> DisplayInfo {
    DisplayInfo { id, width, height, scale_factor: 1, name: format!("output-{}", id) }
}

fn fail_fast() -> LeaseConfig {
    LeaseConfig { allow_shared: false, wait_when_empty: false, teardown_on_release: false }
}

fn expect_granted(r: (Result<AcquireOutcome, LeaseError>, BackendAction)) -> SurfaceLease {
    match r.0 {
        Ok(AcquireOutcome::Granted(lease)) => lease,
        other => panic!("expected a granted lease, got {:?}", other),
    }
}

#[test]
fn two_acquires_return_two_distinct_leases() {
    let mut mgr = OverlayManager::new(fail_fast());
    mgr.update_display(display(10, 1920, 1080));
    mgr.update_display(display(11, 2560, 1440));

    let first = expect_granted(mgr.acquire());
    let second = expect_granted(mgr.acquire());
    assert_ne!(first.lease_id, second.lease_id);
    assert_ne!(first.display_id, second.display_id);
    // FIFO across the pool: the display enumerated first goes first
    assert_eq!(first.display_id, 10);
    assert_eq!(second.display_id, 11);

    let (third, action) = mgr.acquire();
    assert_eq!(third, Err(LeaseError::NoDisplayAvailable));
    assert_eq!(action, BackendAction::NoBackendCall);
}

#[test]
fn wait_policy_queues_and_grants_in_order() {
    let config = LeaseConfig { allow_shared: false, wait_when_empty: true, teardown_on_release: false };
    let mut mgr = OverlayManager::new(config);
    mgr.update_display(display(10, 1920, 1080));

    let lease = expect_granted(mgr.acquire());
    let ticket = match mgr.acquire().0 {
        Ok(AcquireOutcome::Queued(t)) => t,
        other => panic!("expected a queued ticket, got {:?}", other),
    };

    // nothing free yet: no grant
    assert!(mgr.grant_next_waiter().0.is_none());

    let (released, _) = mgr.release(lease);
    assert_eq!(released, Ok(true));
    let (granted, _) = mgr.grant_next_waiter();
    let (served_ticket, new_lease) = granted.expect("the freed display serves the head waiter");
    assert_eq!(served_ticket, ticket);
    assert_eq!(new_lease.display_id, 10);
    assert_ne!(new_lease.lease_id, lease.lease_id);
}

#[test]
fn abandoned_waiters_are_never_granted() {
    let config = LeaseConfig { allow_shared: false, wait_when_empty: true, teardown_on_release: false };
    let mut mgr = OverlayManager::new(config);
    mgr.update_display(display(10, 1920, 1080));
    let lease = expect_granted(mgr.acquire());
    let ticket = match mgr.acquire().0 {
        Ok(AcquireOutcome::Queued(t)) => t,
        other => panic!("expected a queued ticket, got {:?}", other),
    };
    assert!(mgr.cancel_wait(ticket));
    assert!(!mgr.cancel_wait(ticket));
    mgr.release(lease).0.unwrap();
    assert!(mgr.grant_next_waiter().0.is_none());
}

#[test]
fn release_returns_display_exactly_once() {
    let config = LeaseConfig { allow_shared: true, wait_when_empty: false, teardown_on_release: false };
    let mut mgr = OverlayManager::new(config);
    mgr.update_display(display(10, 1920, 1080));

    let first = expect_granted(mgr.acquire());
    // the pool is now empty; sharing serves further acquires from the same display
    let second = expect_granted(mgr.acquire());
    let third = expect_granted(mgr.acquire());
    assert_eq!(second.display_id, first.display_id);
    assert_eq!(third.display_id, first.display_id);

    assert_eq!(mgr.release(first).0, Ok(false));
    assert_eq!(mgr.release(second).0, Ok(false));
    assert_eq!(mgr.release(third).0, Ok(true));
    // a fourth release of an already dead lease fails
    assert_eq!(mgr.release(third).0, Err(LeaseError::SurfaceGone));

    // the display is available exactly once: one acquire drains the pool
    let again = expect_granted(mgr.acquire());
    assert_eq!(again.display_id, 10);
}

#[test]
fn closed_surface_fails_everything_with_surface_gone() {
    let mut mgr = OverlayManager::new(fail_fast());
    mgr.update_display(display(10, 1920, 1080));
    let (res, action) = mgr.acquire();
    let lease = match res {
        Ok(AcquireOutcome::Granted(l)) => l,
        other => panic!("expected a granted lease, got {:?}", other),
    };
    assert_eq!(action, BackendAction::CreateSurface(10));

    // before the configure acknowledgement no buffer may be attached
    assert_eq!(mgr.request_buffer(lease), Ok(BufferReply::NotReadyYet));
    assert_eq!(mgr.handle_configured(10, 1920, 1080), Ok(ConfigureOutcome::BecameReady));
    match mgr.request_buffer(lease) {
        Ok(BufferReply::Buffer(surface)) => {
            assert_eq!(surface.display_id, 10);
            assert_eq!(surface.width, 1920);
            assert_eq!(surface.height, 1080);
        },
        other => panic!("expected a drawable target, got {:?}", other),
    }

    assert!(mgr.handle_closed(10));
    assert_eq!(mgr.request_buffer(lease), Err(LeaseError::SurfaceGone));
    assert!(matches!(mgr.get_info(lease), Err(LeaseError::SurfaceGone)));
    assert_eq!(mgr.release(lease).0, Err(LeaseError::SurfaceGone));
    // the display left all pools
    assert_eq!(mgr.acquire().0, Err(LeaseError::NoDisplayAvailable));
}

#[test]
fn zero_sized_displays_stay_out_until_configured() {
    let mut mgr = OverlayManager::new(fail_fast());
    mgr.update_display(display(10, 0, 0));
    assert!(mgr.enumerate().is_empty());
    assert_eq!(mgr.acquire().0, Err(LeaseError::NoDisplayAvailable));

    mgr.update_display(display(10, 800, 600));
    let listed = mgr.enumerate();
    assert_eq!(listed.len(), 1);
    assert_eq!(listed[0].id, 10);
    assert_eq!(listed[0].width, 800);
    assert_eq!(listed[0].height, 600);
    assert_eq!(listed[0].name, "output-10");
    expect_granted(mgr.acquire());
}

#[test]
fn get_info_reports_the_leased_display() {
    let mut mgr = OverlayManager::new(fail_fast());
    mgr.update_display(display(42, 3840, 2160));
    let lease = expect_granted(mgr.acquire());
    let info = mgr.get_info(lease).expect("a live lease has info");
    assert_eq!(info.id, 42);
    assert_eq!(info.width, 3840);
    assert_eq!(info.height, 2160);
    assert_eq!(info.scale_factor, 1);
    assert_eq!(info.name, "output-42");
}

#[test]
fn teardown_policy_destroys_and_recreates_surfaces() {
    let config = LeaseConfig { allow_shared: false, wait_when_empty: false, teardown_on_release: true };
    let mut mgr = OverlayManager::new(config);
    mgr.update_display(display(10, 1024, 768));

    let (res, action) = mgr.acquire();
    assert_eq!(action, BackendAction::CreateSurface(10));
    let lease = match res {
        Ok(AcquireOutcome::Granted(l)) => l,
        other => panic!("expected a granted lease, got {:?}", other),
    };
    mgr.handle_configured(10, 1024, 768).unwrap();
    let (released, action) = mgr.release(lease);
    assert_eq!(released, Ok(true));
    assert_eq!(action, BackendAction::DestroySurface(10));
    // the next acquire starts the surface over
    let (_, action) = mgr.acquire();
    assert_eq!(action, BackendAction::CreateSurface(10));
}

#[test]
fn kept_surfaces_skip_reconfiguration() {
    let mut mgr = OverlayManager::new(fail_fast());
    mgr.update_display(display(10, 1024, 768));
    let lease = expect_granted(mgr.acquire());
    mgr.handle_configured(10, 1024, 768).unwrap();
    mgr.release(lease).0.unwrap();

    // without teardown the surface stays ready for the next lease
    let (res, action) = mgr.acquire();
    assert_eq!(action, BackendAction::NoBackendCall);
    let lease = match res {
        Ok(AcquireOutcome::Granted(l)) => l,
        other => panic!("expected a granted lease, got {:?}", other),
    };
    assert!(matches!(mgr.request_buffer(lease), Ok(BufferReply::Buffer(_))));
}

#[test]
fn configure_acknowledgements_follow_the_protocol() {
    let mut mgr = OverlayManager::new(fail_fast());
    // an acknowledgement for an unknown display is backend misbehavior
    assert_eq!(mgr.handle_configured(99, 100, 100), Err(LeaseError::ProtocolViolation));

    mgr.update_display(display(10, 1024, 768));
    // an acknowledgement for a surface that was never created is too;
    // it retires that surface alone
    assert_eq!(mgr.handle_configured(10, 1024, 768), Err(LeaseError::ProtocolViolation));
    assert_eq!(mgr.acquire().0, Err(LeaseError::NoDisplayAvailable));

    // other displays are isolated from the violation
    mgr.update_display(display(11, 800, 600));
    let lease = expect_granted(mgr.acquire());
    assert_eq!(lease.display_id, 11);
    assert_eq!(mgr.handle_configured(11, 800, 600), Ok(ConfigureOutcome::BecameReady));
    assert_eq!(mgr.handle_configured(11, 820, 620), Ok(ConfigureOutcome::Refreshed));
    match mgr.request_buffer(lease) {
        Ok(BufferReply::Buffer(surface)) => {
            assert_eq!(surface.width, 820);
            assert_eq!(surface.height, 620);
        },
        other => panic!("expected a drawable target, got {:?}", other),
    }
    // a late acknowledgement for the closed surface is ignored
    assert_eq!(mgr.handle_configured(10, 1, 1), Ok(ConfigureOutcome::Ignored));
}

#[test]
fn removed_displays_disappear_and_kill_their_leases() {
    let mut mgr = OverlayManager::new(fail_fast());
    mgr.update_display(display(10, 1024, 768));
    let lease = expect_granted(mgr.acquire());
    assert!(mgr.remove_display(10));
    assert!(mgr.enumerate().is_empty());
    assert!(matches!(mgr.get_info(lease), Err(LeaseError::SurfaceGone)));
    assert_eq!(mgr.release(lease).0, Err(LeaseError::SurfaceGone));
    assert!(!mgr.handle_closed(99));
}

#[test]
fn fill_pixels_are_half_transparent_blue() {
    let bytes = tabletd_core::screen_overlay::overlay_fill_pixels(2, 2);
    assert_eq!(bytes.len(), 16);
    for pixel in bytes.chunks(4) {
        assert_eq!(pixel, [0xFF, 0x80, 0x00, 0x80]);
    }
}

#[test]
fn gradient_pixels_follow_the_fades() {
    let bytes = tabletd_core::screen_overlay::gradient_pixels(2, 2);
    assert_eq!(bytes.len(), 16);
    // each pixel: blue, green, red, alpha
    assert_eq!(&bytes[0..4], [0, 0, 255, 255]);
    assert_eq!(&bytes[4..8], [0, 127, 127, 255]);
    assert_eq!(&bytes[8..12], [127, 0, 127, 255]);
    assert_eq!(&bytes[12..16], [127, 127, 127, 255]);
}

#[test]
fn sized_display_detection() {
    let mut mgr = OverlayManager::new(fail_fast());
    assert!(!mgr.has_sized_display());
    mgr.update_display(display(10, 0, 0));
    assert!(!mgr.has_sized_display());
    mgr.update_display(display(10, 640, 480));
    assert!(mgr.has_sized_display());
}
