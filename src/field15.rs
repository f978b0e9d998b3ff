//! The tokens of an ICAO Field 15 route, as a Field 15 parser hands them over.
use vstd::prelude::*;

verus! {

/// A cruising level.
#[derive(Debug, Clone, Copy, PartialEq, Eq, Structural)]
pub enum Altitude {
    /// `F` followed by the flight level, in hundreds of feet.
    FlightLevel(u32),
    /// `S` followed by the standard metric level, in tens of metres.
    MetricLevel(u32),
    /// `A` followed by the altitude, in hundreds of feet.
    Feet(u32),
    /// `M` followed by the altitude, in tens of metres.
    Metres(u32),
    /// `VFR`.
    Vfr,
}

/// A cruising speed.
#[derive(Debug, Clone, Copy, PartialEq, Eq, Structural)]
pub enum Speed {
    /// `N` followed by knots.
    Knots(u32),
    /// `M` followed by the Mach number, in hundredths.
    Mach(u32),
    /// `K` followed by kilometres per hour.
    KilometresPerHour(u32),
}

/// A change of speed and/or level.
#[derive(Debug, Clone, Copy, PartialEq, Eq, Structural)]
pub struct Modifier {
    pub speed: Option<Speed>,
    pub altitude: Option<Altitude>,
}

/// A significant point of the route.
#[derive(Debug, Clone)]
pub enum Point {
    /// A named waypoint, navaid or fix.
    Waypoint(String),
    /// A coordinate literal: latitude and longitude in 1e-7 degree.
    Coordinates(i64, i64),
}

/// What joins two points of the route.
#[derive(Debug, Clone)]
pub enum Connector {
    Airway(String),
    Sid(String),
    Star(String),
    Direct,
    Nat(String),
    Pts(String),
}

/// One token of a Field 15 route.
#[derive(Debug, Clone)]
pub enum Field15Element {
    Modifier(Modifier),
    Point(Point),
    Connector(Connector),
    /// Any other token (flight rules changes, stay indications, ...).
    Other(String),
}

} // verus!
