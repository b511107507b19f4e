//! The items that are taken from the XML files: air traffic units,
//! airports and navigation aids.

use crate::error::DataError;
use crate::geo::LatLon;
use vstd::prelude::*;

pub mod parse;

verus! {

/// An air traffic facility, such as a centre.
#[derive(Debug, Clone, PartialEq, Eq)]
pub struct Unit {
    pub designator: String,
    pub ty: String,
    /// The identifier of the airport that the unit lies at.
    pub airport_location: String,
}

/// An airport.
#[derive(Clone, Debug)]
pub struct Airport {
    /// The identifier by which other elements refer to the airport.
    pub id: String,
    pub designator: String,
    pub latlon: LatLon,
}

/// A navigation aid.
#[derive(Clone, Debug)]
pub struct Navaid {
    pub designator: String,
    pub ty: NavaidType,
    pub latlon: LatLon,
    /// The centre in whose low airspace the aid lies.
    pub low_id: String,
}

/// The kinds of navigation aid that are taken.
#[derive(Copy, Clone, Debug, PartialEq, Eq, Structural)]
pub enum NavaidType {
    VORTAC,
    VORDME,
}

/// What contracts say of a `Unit`.
pub struct UnitView {
    pub designator: Seq<char>,
    pub ty: Seq<char>,
    pub airport_location: Seq<char>,
}

/// What contracts say of an `Airport`.
pub struct AirportView {
    pub id: Seq<char>,
    pub designator: Seq<char>,
    pub latlon: LatLon,
}

/// What contracts say of a `Navaid`.
pub struct NavaidView {
    pub designator: Seq<char>,
    pub ty: NavaidType,
    pub latlon: LatLon,
    pub low_id: Seq<char>,
}

impl View for Unit {
    type V = UnitView;

    open spec fn view(&self) -> UnitView {
        UnitView {
            designator: self.designator@,
            ty: self.ty@,
            airport_location: self.airport_location@,
        }
    }
}

impl View for Airport {
    type V = AirportView;

    open spec fn view(&self) -> AirportView {
        AirportView { id: self.id@, designator: self.designator@, latlon: self.latlon }
    }
}

impl View for Navaid {
    type V = NavaidView;

    open spec fn view(&self) -> NavaidView {
        NavaidView {
            designator: self.designator@,
            ty: self.ty,
            latlon: self.latlon,
            low_id: self.low_id@,
        }
    }
}

/// The text of an optional `String`.
pub open spec fn text_of(s: Option<String>) -> Option<Seq<char>> {
    match s {
        Some(t) => Some(t@),
        None => None,
    }
}

/// A unit in the making: each field is there or not yet.
pub struct UnitBuilder {
    pub designator: Option<String>,
    pub ty: Option<String>,
    pub airport_location: Option<String>,
}

/// An airport in the making.
pub struct AirportBuilder {
    pub id: Option<String>,
    pub designator: Option<String>,
    pub latlon: Option<LatLon>,
}

/// A navigation aid in the making.
pub struct NavaidBuilder {
    pub designator: Option<String>,
    pub ty: Option<NavaidType>,
    pub latlon: Option<LatLon>,
    pub low_id: Option<String>,
}

/// The unit that three fields make: all three are required.
pub open spec fn built_unit(
    designator: Option<Seq<char>>,
    ty: Option<Seq<char>>,
    airport_location: Option<Seq<char>>,
) -> Option<UnitView> {
    match (designator, ty, airport_location) {
        (Some(d), Some(t), Some(a)) => Some(
            UnitView { designator: d, ty: t, airport_location: a },
        ),
        _ => None,
    }
}

/// The airport that three fields make: the identifier and the position are
/// required, a designator that is not there is empty.
pub open spec fn built_airport(
    id: Option<Seq<char>>,
    designator: Option<Seq<char>>,
    latlon: Option<LatLon>,
) -> Option<AirportView> {
    match (id, latlon) {
        (Some(i), Some(p)) => Some(
            AirportView {
                id: i,
                designator: match designator {
                    Some(d) => d,
                    None => Seq::empty(),
                },
                latlon: p,
            },
        ),
        _ => None,
    }
}

/// The navigation aid that four fields make: all four are required.
pub open spec fn built_navaid(
    designator: Option<Seq<char>>,
    ty: Option<NavaidType>,
    latlon: Option<LatLon>,
    low_id: Option<Seq<char>>,
) -> Option<NavaidView> {
    match (designator, ty, latlon, low_id) {
        (Some(d), Some(t), Some(p), Some(l)) => Some(
            NavaidView { designator: d, ty: t, latlon: p, low_id: l },
        ),
        _ => None,
    }
}

impl Default for UnitBuilder {
    /// A unit of which nothing is known yet.
    fn default() -> (b: Self)
        ensures
            b.designator is None,
            b.ty is None,
            b.airport_location is None,
    {
        UnitBuilder { designator: None, ty: None, airport_location: None }
    }
}

impl UnitBuilder {
    /// The unit, if every field is there; a unit is never handed out in part.
    pub fn build(self) -> (r: Result<Unit, DataError>)
        ensures
            match built_unit(
                text_of(self.designator),
                text_of(self.ty),
                text_of(self.airport_location),
            ) {
                Some(u) => r matches Ok(unit) && unit@ == u,
                None => r matches Err(DataError::NotYielded),
            },
    {
        match (self.designator, self.ty, self.airport_location) {
            (Some(designator), Some(ty), Some(airport_location)) => Ok(
                Unit { designator, ty, airport_location },
            ),
            _ => Err(DataError::NotYielded),
        }
    }
}

impl Default for AirportBuilder {
    /// An airport of which nothing is known yet.
    fn default() -> (b: Self)
        ensures
            b.id is None,
            b.designator is None,
            b.latlon is None,
    {
        AirportBuilder { id: None, designator: None, latlon: None }
    }
}

impl AirportBuilder {
    /// The airport, if its identifier and position are there.
    pub fn build(self) -> (r: Result<Airport, DataError>)
        ensures
            match built_airport(text_of(self.id), text_of(self.designator), self.latlon) {
                Some(a) => r matches Ok(airport) && airport@ == a,
                None => r matches Err(DataError::NotYielded),
            },
    {
        match (self.id, self.latlon) {
            (Some(id), Some(latlon)) => {
                let designator = match self.designator {
                    Some(d) => d,
                    None => String::new(),
                };
                Ok(Airport { id, designator, latlon })
            },
            _ => Err(DataError::NotYielded),
        }
    }
}

impl Default for NavaidBuilder {
    /// A navigation aid of which nothing is known yet.
    fn default() -> (b: Self)
        ensures
            b.designator is None,
            b.ty is None,
            b.latlon is None,
            b.low_id is None,
    {
        NavaidBuilder { designator: None, ty: None, latlon: None, low_id: None }
    }
}

impl NavaidBuilder {
    /// The navigation aid, if every field is there.
    pub fn build(self) -> (r: Result<Navaid, DataError>)
        ensures
            match built_navaid(
                text_of(self.designator),
                self.ty,
                self.latlon,
                text_of(self.low_id),
            ) {
                Some(n) => r matches Ok(navaid) && navaid@ == n,
                None => r matches Err(DataError::NotYielded),
            },
    {
        match (self.designator, self.ty, self.latlon, self.low_id) {
            (Some(designator), Some(ty), Some(latlon), Some(low_id)) => Ok(
                Navaid { designator, ty, latlon, low_id },
            ),
            _ => Err(DataError::NotYielded),
        }
    }
}

} // verus!
