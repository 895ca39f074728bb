//! The rows of the three tables.

use vstd::prelude::*;

verus! {

/// An instant, in milliseconds since the Unix epoch.
pub type Timestamp = i64;

/// The largest latitude, in units of 1e-7 degree.
pub const MAX_LATITUDE_E7: i32 = 900_000_000;

/// The largest longitude, in units of 1e-7 degree.
pub const MAX_LONGITUDE_E7: i32 = 1_800_000_000;

/// Whether the pair lies within [-90, 90] x [-180, 180] degrees.
pub open spec fn coordinates_in_range(latitude_e7: i32, longitude_e7: i32) -> bool {
    &&& -MAX_LATITUDE_E7 <= latitude_e7 <= MAX_LATITUDE_E7
    &&& -MAX_LONGITUDE_E7 <= longitude_e7 <= MAX_LONGITUDE_E7
}

/// Tests a coordinate pair against the bounds of the globe.
pub fn check_coordinates(latitude_e7: i32, longitude_e7: i32) -> (ok: bool)
    ensures
        ok == coordinates_in_range(latitude_e7, longitude_e7),
{
    -MAX_LATITUDE_E7 <= latitude_e7 && latitude_e7 <= MAX_LATITUDE_E7
        && -MAX_LONGITUDE_E7 <= longitude_e7 && longitude_e7 <= MAX_LONGITUDE_E7
}

/// A trip that the user named: the top of the hierarchy.
#[derive(Debug, PartialEq, Eq)]
pub struct Travel {
    pub id: String,
    pub name: String,
    pub description: String,
}

impl Clone for Travel {
    fn clone(&self) -> (copy: Self)
        ensures
            copy == *self,
    {
        Travel {
            id: self.id.clone(),
            name: self.name.clone(),
            description: self.description.clone(),
        }
    }
}

/// One contiguous span of movement within a travel. While the move is in
/// progress it has no end.
#[derive(Debug, PartialEq, Eq)]
pub struct Move {
    pub move_id: String,
    pub travel_id: String,
    pub start_timestamp: Timestamp,
    pub end_timestamp: Option<Timestamp>,
}

impl Clone for Move {
    fn clone(&self) -> (copy: Self)
        ensures
            copy == *self,
    {
        Move {
            move_id: self.move_id.clone(),
            travel_id: self.travel_id.clone(),
            start_timestamp: self.start_timestamp,
            end_timestamp: self.end_timestamp,
        }
    }
}

impl Move {
    /// Whether the instant lies within the move's span. An open move spans
    /// everything from its start onward.
    pub open spec fn covers(self, t: Timestamp) -> bool {
        &&& self.start_timestamp <= t
        &&& self.end_timestamp matches Some(end) ==> t <= end
    }

    /// Whether the end is no earlier than the start, where there is an end.
    pub open spec fn interval_valid(self) -> bool {
        self.end_timestamp matches Some(end) ==> self.start_timestamp <= end
    }

    /// Tests whether the instant lies within the move's span.
    pub fn contains(&self, t: Timestamp) -> (inside: bool)
        ensures
            inside == self.covers(t),
    {
        if t < self.start_timestamp {
            return false;
        }
        match self.end_timestamp {
            Some(end) => t <= end,
            None => true,
        }
    }
}

/// One raw position fix. The coordinates are in units of 1e-7 degree.
#[derive(Clone, Copy, Debug, PartialEq, Eq, Structural)]
pub struct Geolocation {
    pub timestamp: Timestamp,
    pub latitude_e7: i32,
    pub longitude_e7: i32,
}

} // verus!
