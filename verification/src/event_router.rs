use vstd::prelude::*;

use crate::event_model::{TabletEvent, WheelDirection};

verus! {

/// Opaque identifier of one physical device, stable across that
/// device's lifetime and shared by all of its transport paths.
#[derive(Debug, Clone, Copy, PartialEq, Eq, Structural)]
pub struct DeviceId(pub u64);

/// Visibility of a routed event for the local consumer: `Propagate`
/// reaches ordinary consumers, `Suppressed` is reserved for the
/// on-screen-display session. Remote subscribers see both.
#[derive(Debug, Clone, Copy, PartialEq, Eq, Structural)]
pub enum Tag {
    Propagate,
    Suppressed,
}

/// One event after routing: the source device, the untouched payload
/// and the visibility tag. Produced once per input event, read-only
/// downstream.
#[derive(Debug, Clone, Copy, PartialEq, Eq, Structural)]
pub struct RoutedEvent {
    pub source: DeviceId,
    pub payload: TabletEvent,
    pub tag: Tag,
}

/// Per-device router state: either ordinary input, or an open
/// on-screen-display session that reserves the device's events.
#[derive(Debug, Clone, Copy, PartialEq, Eq, Structural)]
pub enum RouterState {
    Idle,
    SessionActive,
}

/// A physical control pattern the gesture table can bind.
#[derive(Debug, Clone, Copy, PartialEq, Eq, Structural)]
pub enum GesturePattern {
    AuxButton { button_id: u8, pressed: bool },
    Wheel { direction: WheelDirection },
}

/// What a bound gesture does to the device's session.
#[derive(Debug, Clone, Copy, PartialEq, Eq, Structural)]
pub enum GestureAction {
    Engage,
    Disengage,
}

/// One row of the gesture table.
#[derive(Debug, Clone, Copy, PartialEq, Eq, Structural)]
pub struct GestureBinding {
    pub pattern: GesturePattern,
    pub action: GestureAction,
}

/// The gesture table and the optional idle timeout. The mapping from
/// physical controls to session actions is data, not hardcoded logic,
/// so any tablet's controls can be bound.
pub struct GestureConfig {
    pub bindings: Vec<GestureBinding>,
    pub idle_timeout_ms: Option<u64>,
}

/// What the router asks of the surface lease manager when a session
/// opens or closes.
#[derive(Debug, Clone, Copy, PartialEq, Eq, Structural)]
pub enum SessionAction {
    AcquireOverlay,
    ReleaseOverlay,
    NoAction,
}

/// Whether a gesture pattern matches an event.
pub open spec fn pattern_matches(p: GesturePattern, ev: TabletEvent) -> bool {
    match (p, ev) {
        (GesturePattern::AuxButton { button_id, pressed }, TabletEvent::AuxButton(a)) => a.button_id
            == button_id && a.pressed == pressed,
        (GesturePattern::Wheel { direction }, TabletEvent::Wheel(d)) => d == direction,
        _ => false,
    }
}

/// The action of the first binding at or after position `i` whose
/// pattern matches the event, if any.
pub open spec fn gesture_action_from(
    bindings: Seq<GestureBinding>,
    i: int,
    ev: TabletEvent,
) -> Option<GestureAction>
    decreases bindings.len() - i,
{
    if i < 0 || i >= bindings.len() {
        None
    } else if pattern_matches(bindings[i].pattern, ev) {
        Some(bindings[i].action)
    } else {
        gesture_action_from(bindings, i + 1, ev)
    }
}

/// The action the gesture table assigns to an event: the first
/// matching binding wins.
pub open spec fn gesture_action_of(bindings: Seq<GestureBinding>, ev: TabletEvent) -> Option<
    GestureAction,
> {
    gesture_action_from(bindings, 0, ev)
}

/// The state a device moves to when an event with the given gesture
/// action arrives: an engage opens the session from idle, a disengage
/// closes it, anything else leaves the state alone.
pub open spec fn route_step_state(st: RouterState, act: Option<GestureAction>) -> RouterState {
    match (st, act) {
        (RouterState::Idle, Some(GestureAction::Engage)) => RouterState::SessionActive,
        (RouterState::SessionActive, Some(GestureAction::Disengage)) => RouterState::Idle,
        _ => st,
    }
}

/// The tag an event receives: it reflects the device's state at the
/// moment the event is processed, so the engaging event itself still
/// propagates and the disengaging event is still suppressed.
pub open spec fn tag_for(st: RouterState) -> Tag {
    match st {
        RouterState::Idle => Tag::Propagate,
        RouterState::SessionActive => Tag::Suppressed,
    }
}

/// The lease-manager request a state change triggers: opening a
/// session acquires an overlay surface, closing it releases the one
/// acquired.
pub open spec fn session_action_for(before: RouterState, after: RouterState) -> SessionAction {
    if before == RouterState::Idle && after == RouterState::SessionActive {
        SessionAction::AcquireOverlay
    } else if before == RouterState::SessionActive && after == RouterState::Idle {
        SessionAction::ReleaseOverlay
    } else {
        SessionAction::NoAction
    }
}

/// The router's record for one device it has seen.
pub struct DeviceEntry {
    pub device: DeviceId,
    pub state: RouterState,
}

/// The position of the entry for device `d` at or after `i`, or -1.
pub open spec fn device_idx_from(s: Seq<DeviceEntry>, d: DeviceId, i: int) -> int
    decreases s.len() - i,
{
    if i < 0 || i >= s.len() {
        -1
    } else if s[i].device == d {
        i
    } else {
        device_idx_from(s, d, i + 1)
    }
}

/// The position of the entry for device `d`, or -1 when absent.
pub open spec fn device_idx(s: Seq<DeviceEntry>, d: DeviceId) -> int {
    device_idx_from(s, d, 0)
}

/// The routing state of device `d`: a device the router has not seen
/// yet is idle.
pub open spec fn state_of(s: Seq<DeviceEntry>, d: DeviceId) -> RouterState {
    let i = device_idx(s, d);
    if i >= 0 {
        s[i].state
    } else {
        RouterState::Idle
    }
}

/// The per-device routing state machine. Each event gets exactly one
/// routed event back: suppression is a tag, never a drop.
pub struct Router {
    pub config: GestureConfig,
    pub devices: Vec<DeviceEntry>,
}

impl Router {
    /// The router's record of per-device states.
    pub open spec fn devices_view(&self) -> Seq<DeviceEntry> {
        self.devices@
    }

    /// Device entries are unique per device.
    pub open spec fn wf(&self) -> bool {
        forall|i: int, j: int|
            0 <= i < j < self.devices@.len() ==> self.devices@[i].device != self.devices@[j].device
    }

    /// A fresh router: the given gesture table, no device seen yet.
    pub fn new(config: GestureConfig) -> (r: Router)
        ensures
            r.wf(),
            r.config == config,
            r.devices_view() =~= Seq::<DeviceEntry>::empty(),
    {
        Router { config, devices: Vec::new() }
    }

    /// The current routing state of one device.
    pub fn device_state(&self, source: DeviceId) -> (r: RouterState)
        requires
            self.wf(),
        ensures
            r == state_of(self.devices_view(), source),
    {
        let idx = find_device(&self.devices, source);
        match idx {
            Some(i) => self.devices[i].state,
            None => RouterState::Idle,
        }
    }
}

/// The routed events a device's event sequence produces, starting from
/// the given state: one output per input, each tagged with the state
/// at the moment it is processed.
pub open spec fn route_seq_outputs(
    st: RouterState,
    bindings: Seq<GestureBinding>,
    source: DeviceId,
    evs: Seq<TabletEvent>,
) -> Seq<RoutedEvent>
    decreases evs.len(),
{
    if evs.len() == 0 {
        Seq::empty()
    } else {
        let act = gesture_action_of(bindings, evs[0]);
        let st2 = route_step_state(st, act);
        seq![RoutedEvent { source, payload: evs[0], tag: tag_for(st) }] + route_seq_outputs(
            st2,
            bindings,
            source,
            evs.drop_first(),
        )
    }
}

/// The state a device is in after its whole event sequence.
pub open spec fn route_seq_state(
    st: RouterState,
    bindings: Seq<GestureBinding>,
    evs: Seq<TabletEvent>,
) -> RouterState
    decreases evs.len(),
{
    if evs.len() == 0 {
        st
    } else {
        route_seq_state(route_step_state(st, gesture_action_of(bindings, evs[0])), bindings, evs.drop_first())
    }
}

/// The router never drops an event: for any input sequence on a
/// device, as many routed events leave as events entered, and each
/// output carries the corresponding input as its payload.
pub proof fn lemma_router_never_drops(
    st: RouterState,
    bindings: Seq<GestureBinding>,
    source: DeviceId,
    evs: Seq<TabletEvent>,
)
    ensures
        route_seq_outputs(st, bindings, source, evs).len() == evs.len(),
        forall|i: int|
            0 <= i < evs.len() ==> #[trigger] route_seq_outputs(st, bindings, source, evs)[i].payload
                == evs[i],
    decreases evs.len(),
{
    if evs.len() > 0 {
        let act = gesture_action_of(bindings, evs[0]);
        let st2 = route_step_state(st, act);
        lemma_router_never_drops(st2, bindings, source, evs.drop_first());
    }
}

/// Every routed event's tag reflects the device's state at the
/// moment that event is processed — never the state its own
/// transition produces. So the engaging event itself still
/// propagates, since suppression starts only after its transition,
/// and the disengaging event is still suppressed.
pub proof fn lemma_tags_reflect_processing_state(
    st: RouterState,
    bindings: Seq<GestureBinding>,
    source: DeviceId,
    evs: Seq<TabletEvent>,
    i: int,
)
    requires
        0 <= i < evs.len(),
    ensures
        route_seq_outputs(st, bindings, source, evs)[i].tag == tag_for(
            route_seq_state(st, bindings, evs.take(i)),
        ),
    decreases i,
{
    let st2 = route_step_state(st, gesture_action_of(bindings, evs[0]));
    if i == 0 {
        assert(evs.take(0) =~= Seq::<TabletEvent>::empty());
    } else {
        lemma_tags_reflect_processing_state(st2, bindings, source, evs.drop_first(), i - 1);
        lemma_router_never_drops(st, bindings, source, evs);
        lemma_router_never_drops(st2, bindings, source, evs.drop_first());
        assert(route_seq_outputs(st, bindings, source, evs)[i] == route_seq_outputs(
            st2,
            bindings,
            source,
            evs.drop_first(),
        )[i - 1]);
        assert(evs.take(i).drop_first() =~= evs.drop_first().take(i - 1));
        assert(evs.take(i)[0] == evs[0]);
    }
}

impl Router {
    /// Routes one event from one device: tags it from the device's
    /// current state, steps the state, and reports what the surface
    /// lease manager should be asked on a session boundary.
    pub fn route(&mut self, source: DeviceId, payload: TabletEvent) -> (r: (
        RoutedEvent,
        SessionAction,
    ))
        requires
            old(self).wf(),
        ensures
            final(self).wf(),
            final(self).config == old(self).config,
            ({
                let st = state_of(old(self).devices_view(), source);
                let act = gesture_action_of(old(self).config.bindings@, payload);
                let st2 = route_step_state(st, act);
                &&& r.0 == (RoutedEvent { source, payload, tag: tag_for(st) })
                &&& r.1 == session_action_for(st, st2)
                &&& state_of(final(self).devices_view(), source) == st2
            }),
            forall|d2: DeviceId|
                d2 != source ==> #[trigger] state_of(final(self).devices_view(), d2) == state_of(
                    old(self).devices_view(),
                    d2,
                ),
    {
        let ghost s0 = self.devices@;
        let st = self.device_state(source);
        let act = action_for(&self.config, &payload);
        let st2 = match (st, act) {
            (RouterState::Idle, Some(GestureAction::Engage)) => RouterState::SessionActive,
            (RouterState::SessionActive, Some(GestureAction::Disengage)) => RouterState::Idle,
            _ => st,
        };
        let action = if matches!(st, RouterState::Idle) && matches!(
            st2,
            RouterState::SessionActive,
        ) {
            SessionAction::AcquireOverlay
        } else if matches!(st, RouterState::SessionActive) && matches!(st2, RouterState::Idle) {
            SessionAction::ReleaseOverlay
        } else {
            SessionAction::NoAction
        };
        let tag = if matches!(st, RouterState::SessionActive) {
            Tag::Suppressed
        } else {
            Tag::Propagate
        };
        match find_device(&self.devices, source) {
            Some(i) => {
                set_device_state(&mut self.devices, i, st2);
                proof {
                    lemma_device_idx_same_devices(s0, self.devices@, source, 0);
                    assert forall|d2: DeviceId| d2 != source implies #[trigger] state_of(
                        self.devices@,
                        d2,
                    ) == state_of(s0, d2) by {
                        lemma_device_idx_same_devices(s0, self.devices@, d2, 0);
                        lemma_device_idx_props(s0, d2, 0);
                    }
                }
            },
            None => {
                proof {
                    lemma_device_idx_props(s0, source, 0);
                }
                self.devices.push(DeviceEntry { device: source, state: st2 });
                proof {
                    lemma_device_idx_push(s0, DeviceEntry { device: source, state: st2 }, source, 0);
                    assert forall|d2: DeviceId| d2 != source implies #[trigger] state_of(
                        self.devices@,
                        d2,
                    ) == state_of(s0, d2) by {
                        lemma_device_idx_push(
                            s0,
                            DeviceEntry { device: source, state: st2 },
                            d2,
                            0,
                        );
                        lemma_device_idx_props(s0, d2, 0);
                    }
                }
            },
        }
        (RoutedEvent { source, payload, tag }, action)
    }

    /// Routes a whole input sequence from one device, in order. The
    /// output holds exactly one routed event per input event.
    pub fn route_all(&mut self, source: DeviceId, evs: &Vec<TabletEvent>) -> (out: Vec<RoutedEvent>)
        requires
            old(self).wf(),
        ensures
            final(self).wf(),
            final(self).config == old(self).config,
            out@ == route_seq_outputs(
                state_of(old(self).devices_view(), source),
                old(self).config.bindings@,
                source,
                evs@,
            ),
            out.len() == evs.len(),
            state_of(final(self).devices_view(), source) == route_seq_state(
                state_of(old(self).devices_view(), source),
                old(self).config.bindings@,
                evs@,
            ),
            forall|d2: DeviceId|
                d2 != source ==> #[trigger] state_of(final(self).devices_view(), d2) == state_of(
                    old(self).devices_view(),
                    d2,
                ),
    {
        let ghost st0 = state_of(old(self).devices_view(), source);
        let ghost bindings = old(self).config.bindings@;
        let mut out: Vec<RoutedEvent> = Vec::new();
        let mut i: usize = 0;
        proof {
            lemma_router_never_drops(st0, bindings, source, evs@);
            assert(evs@.skip(0) =~= evs@);
            assert(Seq::<RoutedEvent>::empty() + route_seq_outputs(st0, bindings, source, evs@)
                =~= route_seq_outputs(st0, bindings, source, evs@));
        }
        while i < evs.len()
            invariant
                0 <= i <= evs@.len(),
                self.wf(),
                self.config == old(self).config,
                self.config.bindings@ == bindings,
                out@.len() == i,
                route_seq_outputs(st0, bindings, source, evs@) =~= out@ + route_seq_outputs(
                    state_of(self.devices_view(), source),
                    bindings,
                    source,
                    evs@.skip(i as int),
                ),
                route_seq_state(st0, bindings, evs@) == route_seq_state(
                    state_of(self.devices_view(), source),
                    bindings,
                    evs@.skip(i as int),
                ),
                forall|d2: DeviceId|
                    d2 != source ==> #[trigger] state_of(self.devices_view(), d2) == state_of(
                        old(self).devices_view(),
                        d2,
                    ),
            decreases evs@.len() - i,
        {
            let ghost st_here = state_of(self.devices_view(), source);
            let (routed, _action) = self.route(source, evs[i]);
            out.push(routed);
            proof {
                assert(evs@.skip(i as int).drop_first() =~= evs@.skip(i as int + 1));
                lemma_router_never_drops(
                    state_of(self.devices_view(), source),
                    bindings,
                    source,
                    evs@.skip(i as int + 1),
                );
            }
            i += 1;
        }
        proof {
            assert(evs@.skip(evs@.len() as int) =~= Seq::<TabletEvent>::empty());
            assert(out@ + Seq::<RoutedEvent>::empty() =~= out@);
        }
        out
    }

    /// Ends a device's on-screen-display session outside the gesture
    /// table: an explicit dismiss from the session, or a fired idle
    /// timeout. Reports the release the lease manager is owed.
    pub fn dismiss(&mut self, source: DeviceId) -> (r: SessionAction)
        requires
            old(self).wf(),
        ensures
            final(self).wf(),
            final(self).config == old(self).config,
            state_of(final(self).devices_view(), source) == RouterState::Idle,
            r == session_action_for(state_of(old(self).devices_view(), source), RouterState::Idle),
            forall|d2: DeviceId|
                d2 != source ==> #[trigger] state_of(final(self).devices_view(), d2) == state_of(
                    old(self).devices_view(),
                    d2,
                ),
    {
        let ghost s0 = self.devices@;
        match find_device(&self.devices, source) {
            Some(i) => {
                let was_active = matches!(self.devices[i].state, RouterState::SessionActive);
                set_device_state(&mut self.devices, i, RouterState::Idle);
                proof {
                    lemma_device_idx_same_devices(s0, self.devices@, source, 0);
                    assert forall|d2: DeviceId| d2 != source implies #[trigger] state_of(
                        self.devices@,
                        d2,
                    ) == state_of(s0, d2) by {
                        lemma_device_idx_same_devices(s0, self.devices@, d2, 0);
                        lemma_device_idx_props(s0, d2, 0);
                    }
                }
                if was_active {
                    SessionAction::ReleaseOverlay
                } else {
                    SessionAction::NoAction
                }
            },
            None => SessionAction::NoAction,
        }
    }

    /// Whether a device's session has outlived the configured idle
    /// timeout, given how long the device has been idle. Without a
    /// configured timeout a session never expires on its own.
    pub fn session_expired(&self, source: DeviceId, idle_ms: u64) -> (r: bool)
        requires
            self.wf(),
        ensures
            r == (state_of(self.devices_view(), source) == RouterState::SessionActive
                && match self.config.idle_timeout_ms {
                Some(t) => idle_ms >= t,
                None => false,
            }),
    {
        let active = matches!(self.device_state(source), RouterState::SessionActive);
        match self.config.idle_timeout_ms {
            Some(t) => active && idle_ms >= t,
            None => false,
        }
    }
}

/// Replaces the state of entry `i`, leaving its device id alone.
fn set_device_state(v: &mut Vec<DeviceEntry>, i: usize, st: RouterState)
    requires
        i < old(v)@.len(),
    ensures
        final(v)@ == old(v)@.update(
            i as int,
            DeviceEntry { device: old(v)@[i as int].device, state: st },
        ),
{
    let entry = &mut v[i];
    entry.state = st;
}

/// `device_idx_from` only looks at device fields: two sequences whose
/// entries name the same devices give the same index.
proof fn lemma_device_idx_same_devices(s1: Seq<DeviceEntry>, s2: Seq<DeviceEntry>, d: DeviceId, i: int)
    requires
        s1.len() == s2.len(),
        forall|k: int| 0 <= k < s1.len() ==> s1[k].device == s2[k].device,
    ensures
        device_idx_from(s1, d, i) == device_idx_from(s2, d, i),
    decreases s1.len() - i,
{
    if 0 <= i < s1.len() {
        if s1[i].device != d {
            lemma_device_idx_same_devices(s1, s2, d, i + 1);
        }
    }
}

/// What a device index means: -1 exactly when no entry at or after `i`
/// names the device, and otherwise a position that does.
proof fn lemma_device_idx_props(s: Seq<DeviceEntry>, d: DeviceId, i: int)
    requires
        0 <= i <= s.len(),
    ensures
        device_idx_from(s, d, i) == -1 ==> forall|k: int|
            i <= k < s.len() ==> (#[trigger] s[k]).device != d,
        device_idx_from(s, d, i) != -1 ==> i <= device_idx_from(s, d, i) < s.len() && s[device_idx_from(
            s,
            d,
            i,
        )].device == d,
    decreases s.len() - i,
{
    if i < s.len() {
        if s[i].device != d {
            lemma_device_idx_props(s, d, i + 1);
        }
    }
}

/// How pushing an entry moves the device index: a found device keeps
/// its index, an absent one is found at the end exactly when the new
/// entry names it.
proof fn lemma_device_idx_push(s: Seq<DeviceEntry>, e: DeviceEntry, d: DeviceId, i: int)
    requires
        0 <= i <= s.len(),
    ensures
        device_idx_from(s.push(e), d, i) == if device_idx_from(s, d, i) >= 0 {
            device_idx_from(s, d, i)
        } else if e.device == d {
            s.len() as int
        } else {
            -1
        },
    decreases s.len() - i,
{
    if i < s.len() {
        if s[i].device != d {
            lemma_device_idx_push(s, e, d, i + 1);
        }
    } else {
        assert(device_idx_from(s, d, i) == -1);
        if e.device == d {
            assert(s.push(e)[i] == e);
        } else {
            assert(device_idx_from(s.push(e), d, i + 1) == -1);
        }
    }
}

/// Finds the first binding matching the event, agreeing with
/// `gesture_action_of`.
fn action_for(cfg: &GestureConfig, ev: &TabletEvent) -> (r: Option<GestureAction>)
    ensures
        r == gesture_action_of(cfg.bindings@, *ev),
{
    let mut i: usize = 0;
    while i < cfg.bindings.len()
        invariant
            0 <= i <= cfg.bindings@.len(),
            gesture_action_of(cfg.bindings@, *ev) == gesture_action_from(
                cfg.bindings@,
                i as int,
                *ev,
            ),
        decreases cfg.bindings@.len() - i,
    {
        let b = &cfg.bindings[i];
        let hit = match (&b.pattern, ev) {
            (GesturePattern::AuxButton { button_id, pressed }, TabletEvent::AuxButton(a)) => a.button_id
                == *button_id && a.pressed == *pressed,
            (GesturePattern::Wheel { direction }, TabletEvent::Wheel(dir)) => *dir == *direction,
            _ => false,
        };
        if hit {
            return Some(b.action);
        }
        i += 1;
    }
    None
}

/// Finds the entry for device `d`, agreeing with `device_idx`.
fn find_device(s: &Vec<DeviceEntry>, d: DeviceId) -> (r: Option<usize>)
    ensures
        match r {
            Some(i) => device_idx(s@, d) == i && i < s@.len() && s@[i as int].device == d,
            None => device_idx(s@, d) == -1,
        },
{
    let mut i: usize = 0;
    while i < s.len()
        invariant
            0 <= i <= s@.len(),
            device_idx(s@, d) == device_idx_from(s@, d, i as int),
        decreases s@.len() - i,
    {
        if s[i].device == d {
            return Some(i);
        }
        i += 1;
    }
    None
}

} // verus!
