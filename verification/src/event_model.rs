use vstd::prelude::*;

verus! {

/// Pen tilt along both axes, in device-normalized units.
#[derive(Debug, Clone, Copy, PartialEq, Eq, Structural)]
pub struct Tilt {
    pub x: i16,
    pub y: i16,
}

/// Where the pen currently is relative to the tablet surface.
///
/// The location is explicit rather than inferred from zero pressure,
/// so that hover-capable devices stay unambiguous.
#[derive(Debug, Clone, Copy, PartialEq, Eq, Structural)]
pub enum PenLocation {
    Leaved,
    Floating,
    Pressed,
}

/// Which end of the pen is in use.
#[derive(Debug, Clone, Copy, PartialEq, Eq, Structural)]
pub enum ToolType {
    Pen,
    Eraser,
}

/// State of the two barrel buttons on the pen itself.
#[derive(Debug, Clone, Copy, PartialEq, Eq, Structural)]
pub struct PenButton {
    pub upper: bool,
    pub lower: bool,
}

/// One full pen sample: position, pressure, tilt, tool and location.
/// Coordinates and pressure are device-normalized integers; their scale
/// is a property of the producing device, not of this model.
#[derive(Debug, Clone, Copy, PartialEq, Eq, Structural)]
pub struct PenState {
    pub x: u32,
    pub y: u32,
    pub pressure: u32,
    pub tilt: Tilt,
    pub tool: ToolType,
    pub location: PenLocation,
}

/// A press or release of an auxiliary button on the tablet body.
#[derive(Debug, Clone, Copy, PartialEq, Eq, Structural)]
pub struct AuxButtonEvent {
    pub button_id: u8,
    pub pressed: bool,
}

/// Rotation sense of the tablet's wheel or touch ring.
#[derive(Debug, Clone, Copy, PartialEq, Eq, Structural)]
pub enum WheelDirection {
    Clockwise,
    CounterClockwise,
}

/// A canonical, immutable tablet occurrence.
#[derive(Debug, Clone, Copy, PartialEq, Eq, Structural)]
pub enum TabletEvent {
    PenEvent(PenState),
    AuxButton(AuxButtonEvent),
    Wheel(WheelDirection),
    Unknown,
}

impl Default for TabletEvent {
    fn default() -> (r: Self)
        ensures
            r == TabletEvent::Unknown,
    {
        Self::Unknown
    }
}

/// What `WheelDirection::from` yields for a raw wheel code.
/// Code 1 is counter-clockwise; every other code falls back to clockwise.
pub open spec fn wheel_direction_of(value: u8) -> WheelDirection {
    if value == 1 {
        WheelDirection::CounterClockwise
    } else {
        WheelDirection::Clockwise
    }
}

impl From<u8> for WheelDirection {
    fn from(value: u8) -> (r: Self) {
        if value == 1 {
            WheelDirection::CounterClockwise
        } else {
            WheelDirection::Clockwise
        }
    }
}

impl vstd::std_specs::convert::FromSpecImpl<u8> for WheelDirection {
    open spec fn obeys_from_spec() -> bool {
        true
    }

    open spec fn from_spec(value: u8) -> Self {
        wheel_direction_of(value)
    }
}

/// The coarse kind of a tablet event, as subscriber filters see it.
#[derive(Debug, Clone, Copy, PartialEq, Eq, Structural)]
pub enum EventKind {
    Pen,
    Aux,
    Wheel,
    Unknown,
}

/// The kind of an event, used by subscriber filter rules.
pub open spec fn kind_of(ev: TabletEvent) -> EventKind {
    match ev {
        TabletEvent::PenEvent(_) => EventKind::Pen,
        TabletEvent::AuxButton(_) => EventKind::Aux,
        TabletEvent::Wheel(_) => EventKind::Wheel,
        TabletEvent::Unknown => EventKind::Unknown,
    }
}

impl TabletEvent {
    /// The coarse kind of this event.
    pub fn kind(&self) -> (r: EventKind)
        ensures
            r == kind_of(*self),
    {
        match self {
            TabletEvent::PenEvent(_) => EventKind::Pen,
            TabletEvent::AuxButton(_) => EventKind::Aux,
            TabletEvent::Wheel(_) => EventKind::Wheel,
            TabletEvent::Unknown => EventKind::Unknown,
        }
    }
}

/// Ranges a device declares for the fields of its pen samples.
/// A sample is well-formed when every field lies inside these bounds.
#[derive(Debug, Clone, Copy, PartialEq, Eq, Structural)]
pub struct DeviceLimits {
    pub max_x: u32,
    pub max_y: u32,
    pub max_pressure: u32,
    pub max_tilt_x: i16,
    pub max_tilt_y: i16,
}

/// Why an event failed validation at ingestion.
#[derive(Debug, Clone, Copy, PartialEq, Eq, Structural)]
pub enum MalformedEvent {
    CoordinateOutOfRange,
    PressureOutOfRange,
    TiltOutOfRange,
}

/// The classification a pen sample receives under the given limits:
/// `None` when every field is in bounds, otherwise the first failing
/// check in the order coordinates, pressure, tilt.
pub open spec fn pen_malformed_of(ps: PenState, lim: DeviceLimits) -> Option<MalformedEvent> {
    if ps.x > lim.max_x || ps.y > lim.max_y {
        Some(MalformedEvent::CoordinateOutOfRange)
    } else if ps.pressure > lim.max_pressure {
        Some(MalformedEvent::PressureOutOfRange)
    } else if ps.tilt.x > lim.max_tilt_x || ps.tilt.x < -lim.max_tilt_x || ps.tilt.y
        > lim.max_tilt_y || ps.tilt.y < -lim.max_tilt_y {
        Some(MalformedEvent::TiltOutOfRange)
    } else {
        None
    }
}

/// The classification an event receives under the given limits.
/// Only pen samples carry range-checked fields; auxiliary button,
/// wheel and unknown events are always well-formed.
pub open spec fn malformed_of(ev: TabletEvent, lim: DeviceLimits) -> Option<MalformedEvent> {
    match ev {
        TabletEvent::PenEvent(ps) => pen_malformed_of(ps, lim),
        _ => None,
    }
}

/// An event is valid when validation classifies nothing as malformed.
pub open spec fn event_valid(ev: TabletEvent, lim: DeviceLimits) -> bool {
    malformed_of(ev, lim) is None
}

/// Validates an event against the device-declared limits.
/// Returns the exact malformation class on failure; a failing event is
/// dropped by the caller, never turned into a partial instance.
pub fn validate_event(ev: &TabletEvent, lim: &DeviceLimits) -> (r: Result<(), MalformedEvent>)
    ensures
        match r {
            Ok(()) => event_valid(*ev, *lim),
            Err(e) => malformed_of(*ev, *lim) == Some(e),
        },
{
    match ev {
        TabletEvent::PenEvent(ps) => {
            if ps.x > lim.max_x || ps.y > lim.max_y {
                Err(MalformedEvent::CoordinateOutOfRange)
            } else if ps.pressure > lim.max_pressure {
                Err(MalformedEvent::PressureOutOfRange)
            } else if (ps.tilt.x as i32) > (lim.max_tilt_x as i32) || (ps.tilt.x as i32)
                < -(lim.max_tilt_x as i32) || (ps.tilt.y as i32) > (lim.max_tilt_y as i32) || (
            ps.tilt.y as i32) < -(lim.max_tilt_y as i32) {
                Err(MalformedEvent::TiltOutOfRange)
            } else {
                Ok(())
            }
        },
        _ => Ok(()),
    }
}

} // verus!
