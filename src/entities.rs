//! Reference entities of the aeronautical database, as they are ingested from
//! AIXM archives. Positions are fixed-point: latitudes and longitudes are held
//! in units of 1e-7 degree.
use vstd::prelude::*;

use crate::text::{copy_opt_string, has_prefix};

verus! {

/// An airport or heliport.
#[derive(Debug, Clone)]
pub struct AirportHeliport {
    pub identifier: String,
    pub latitude: i64,
    pub longitude: i64,
    /// Elevation in feet.
    pub altitude: i64,
    pub iata: Option<String>,
    pub icao: String,
    pub name: String,
    pub city: Option<String>,
    pub kind: String,
}

/// A ground-based radio navigation aid.
#[derive(Debug, Clone)]
pub struct Navaid {
    pub identifier: String,
    pub name: Option<String>,
    pub kind: String,
    pub latitude: i64,
    pub longitude: i64,
}

/// A named fix that is not a navaid.
#[derive(Debug, Clone)]
pub struct DesignatedPoint {
    pub identifier: String,
    pub latitude: i64,
    pub longitude: i64,
    /// Short name, such as `ERNAN`.
    pub designator: String,
    pub name: Option<String>,
    pub kind: String,
}

/// An airway. Its designator is `prefix ∥ second_letter ∥ number`, optionally
/// followed by a one-letter multiple identifier.
#[derive(Debug, Clone)]
pub struct Route {
    pub identifier: String,
    /// `U` when present.
    pub prefix: Option<String>,
    pub second_letter: Option<String>,
    pub number: Option<String>,
    pub multiple_identifier: Option<String>,
}

/// A reference to a point entity by identifier; the variant names the
/// collection the identifier indexes into.
#[derive(Debug, Clone)]
pub enum PointReference {
    DesignatedPoint(String),
    Navaid(String),
    AirportHeliport(String),
    Unset,
}

/// One edge of an airway.
#[derive(Debug, Clone)]
pub struct RouteSegment {
    pub identifier: String,
    /// Identifier of the route this segment belongs to.
    pub route_formed: Option<String>,
    pub start: PointReference,
    pub end: PointReference,
}

/// One edge of a standard arrival.
#[derive(Debug, Clone)]
pub struct ArrivalLeg {
    pub identifier: String,
    /// Identifier of the arrival procedure this leg belongs to.
    pub arrival: Option<String>,
    pub start: PointReference,
    pub end: PointReference,
}

/// One edge of a standard departure.
#[derive(Debug, Clone)]
pub struct DepartureLeg {
    pub identifier: String,
    /// Identifier of the departure procedure this leg belongs to.
    pub departure: Option<String>,
    pub start: PointReference,
    pub end: PointReference,
}

/// A standard instrument arrival (STAR).
#[derive(Debug, Clone)]
pub struct StandardInstrumentArrival {
    pub identifier: String,
    pub designator: String,
    pub airport_heliport: Option<String>,
    pub instruction: Option<String>,
    pub connecting_points: Vec<PointReference>,
}

/// A standard instrument departure (SID).
#[derive(Debug, Clone)]
pub struct StandardInstrumentDeparture {
    pub identifier: String,
    pub designator: String,
    pub airport_heliport: Option<String>,
    pub instruction: Option<String>,
    pub connecting_points: Vec<PointReference>,
}

/// The identifier a reference carries, empty for `None`.
pub open spec fn reference_name(r: PointReference) -> Seq<char> {
    match r {
        PointReference::DesignatedPoint(id) => id@,
        PointReference::Navaid(id) => id@,
        PointReference::AirportHeliport(id) => id@,
        PointReference::Unset => Seq::empty(),
    }
}

impl PointReference {
    /// The identifier this reference carries, or the empty string for `None`.
    pub fn name(&self) -> (r: String)
        ensures
            r@ == reference_name(*self),
    {
        match self {
            PointReference::DesignatedPoint(id) => id.clone(),
            PointReference::Navaid(id) => id.clone(),
            PointReference::AirportHeliport(id) => id.clone(),
            PointReference::Unset => String::new(),
        }
    }

    pub fn is_airport_heliport(&self) -> (r: bool)
        ensures
            r == (*self is AirportHeliport),
    {
        match self {
            PointReference::AirportHeliport(_) => true,
            _ => false,
        }
    }

    /// An owned copy of the reference.
    pub fn copied(&self) -> (r: PointReference)
        ensures
            r == *self,
    {
        match self {
            PointReference::DesignatedPoint(id) => PointReference::DesignatedPoint(id.clone()),
            PointReference::Navaid(id) => PointReference::Navaid(id.clone()),
            PointReference::AirportHeliport(id) => PointReference::AirportHeliport(id.clone()),
            PointReference::Unset => PointReference::Unset,
        }
    }
}

impl AirportHeliport {
    pub fn copied(&self) -> (r: AirportHeliport)
        ensures
            r == *self,
    {
        AirportHeliport {
            identifier: self.identifier.clone(),
            latitude: self.latitude,
            longitude: self.longitude,
            altitude: self.altitude,
            iata: copy_opt_string(&self.iata),
            icao: self.icao.clone(),
            name: self.name.clone(),
            city: copy_opt_string(&self.city),
            kind: self.kind.clone(),
        }
    }
}

impl Navaid {
    pub fn copied(&self) -> (r: Navaid)
        ensures
            r == *self,
    {
        Navaid {
            identifier: self.identifier.clone(),
            name: copy_opt_string(&self.name),
            kind: self.kind.clone(),
            latitude: self.latitude,
            longitude: self.longitude,
        }
    }
}

impl DesignatedPoint {
    pub fn copied(&self) -> (r: DesignatedPoint)
        ensures
            r == *self,
    {
        DesignatedPoint {
            identifier: self.identifier.clone(),
            latitude: self.latitude,
            longitude: self.longitude,
            designator: self.designator.clone(),
            name: copy_opt_string(&self.name),
            kind: self.kind.clone(),
        }
    }
}

/// The identifier an `xlink:href` cross-reference designates: the value
/// without its `urn:uuid:` prefix, or the value itself when it has none.
pub open spec fn href_identifier(href: Seq<char>) -> Seq<char> {
    let p = "urn:uuid:"@;
    if p.len() <= href.len() && href.subrange(0, p.len() as int) == p {
        href.subrange(p.len() as int, href.len() as int)
    } else {
        href
    }
}

/// The identifier of an `xlink:href` attribute value, if there is one.
pub fn extract_uuid_href(href: Option<&str>) -> (r: Option<String>)
    ensures
        r is None <==> href is None,
        r is Some ==> r->0@ == href_identifier(href->0@),
{
    match href {
        None => None,
        Some(h) => {
            if has_prefix(h, "urn:uuid:") {
                let n = h.unicode_len();
                let p = "urn:uuid:".unicode_len();
                Some(h.substring_char(p, n).to_owned())
            } else {
                Some(h.to_owned())
            }
        }
    }
}

} // verus!
