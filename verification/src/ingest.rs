//! What the write endpoint receives, and the reading that it makes of it.

use crate::storage::memtable::Observation;
use vstd::prelude::*;

verus! {

/// A request to store one reading. The floating-point fields hold the
/// IEEE-754 bit patterns of the readings.
#[derive(Debug, Clone, PartialEq, Eq)]
pub struct WriteRequest {
    pub station_id: String,
    pub time: String,
    pub temp: Option<u64>,
    pub humidity: Option<u64>,
    pub pressure: Option<u64>,
    pub wind_speed: Option<u64>,
    pub wind_dir: Option<u16>,
}

impl WriteRequest {
    /// The reading that the request asks to store: every field as it came.
    pub fn into_observation(self) -> (obs: Observation)
        ensures
            obs == (Observation {
                station_id: self.station_id,
                time: self.time,
                temp: self.temp,
                humidity: self.humidity,
                pressure: self.pressure,
                wind_speed: self.wind_speed,
                wind_dir: self.wind_dir,
            }),
    {
        Observation {
            station_id: self.station_id,
            time: self.time,
            temp: self.temp,
            humidity: self.humidity,
            pressure: self.pressure,
            wind_speed: self.wind_speed,
            wind_dir: self.wind_dir,
        }
    }
}

} // verus!
