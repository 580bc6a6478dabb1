//! Plain data carried between the poller, the snapshot and the renderer.

use vstd::prelude::*;

verus! {

/// A wall-clock instant, counted in whole seconds since the Unix epoch.
#[derive(Clone, Copy, PartialEq, Eq, Structural, Debug)]
pub struct Instant {
    pub epoch_seconds: i64,
}

/// One arrival prediction for a stop, as the tracking service reports it.
///
/// `eta_seconds` is the predicted number of seconds until arrival at the
/// moment the prediction was produced; it is only meaningful together
/// with the instant of the fetch that carried it. `just_scheduled` marks
/// predictions that come from the timetable alone, with no live vehicle
/// behind them.
#[derive(Debug, PartialEq)]
pub struct Arrival {
    pub route_id: i64,
    pub stop_id: i64,
    pub bus_name: Option<String>,
    pub route_name: String,
    pub arrive_time: String,
    pub eta_seconds: i64,
    pub just_scheduled: bool,
}

impl Clone for Arrival {
    fn clone(&self) -> (r: Self)
        ensures
            r == *self,
    {
        Arrival {
            route_id: self.route_id,
            stop_id: self.stop_id,
            bus_name: match &self.bus_name {
                Some(n) => Some(n.clone()),
                None => None,
            },
            route_name: self.route_name.clone(),
            arrive_time: self.arrive_time.clone(),
            eta_seconds: self.eta_seconds,
            just_scheduled: self.just_scheduled,
        }
    }
}

/// An arrival prediction together with the instant at which the fetch
/// that produced it completed.
#[derive(Debug, PartialEq)]
pub struct TimedArrival {
    pub read_time: Instant,
    pub arrival: Arrival,
}

impl Clone for TimedArrival {
    fn clone(&self) -> (r: Self)
        ensures
            r == *self,
    {
        TimedArrival { read_time: self.read_time, arrival: self.arrival.clone() }
    }
}

/// The arrival predictions the service reports for one route at one stop.
#[derive(Debug, PartialEq)]
pub struct ArrivalGroup {
    pub route_id: i64,
    pub arrivals: Vec<Arrival>,
}

/// A service region, as reported during startup discovery.
#[derive(Debug, PartialEq)]
pub struct Region {
    pub id: i64,
    pub name: String,
}

/// A route within a region, as reported during startup discovery.
#[derive(Debug, PartialEq)]
pub struct Route {
    pub id: i64,
    pub display_name: String,
    pub customer_id: i64,
    pub name: String,
}

/// A stop on one direction of a route.
#[derive(Debug, PartialEq)]
pub struct Stop {
    pub id: i64,
    pub name: String,
    pub rtpi_number: i64,
}

/// One direction of travel on a route, with the stops it serves.
#[derive(Debug, PartialEq)]
pub struct Direction {
    pub id: i64,
    pub route_id: i64,
    pub name: String,
    pub stops: Vec<Stop>,
}

/// Why a fetch failed: the request could not be sent, the response had a
/// non-success status, or the payload could not be decoded. Each variant
/// carries a human-readable cause for the log.
#[derive(Debug, PartialEq)]
pub enum FetchError {
    Transport(String),
    BadStatus(String),
    Malformed(String),
}

impl FetchError {
    /// The human-readable cause carried by the error.
    pub fn cause(&self) -> (r: &String)
        ensures
            r@ == self.cause_text(),
    {
        match self {
            FetchError::Transport(s) => s,
            FetchError::BadStatus(s) => s,
            FetchError::Malformed(s) => s,
        }
    }

    /// The cause text of each variant.
    pub open spec fn cause_text(&self) -> Seq<char> {
        match self {
            FetchError::Transport(s) => s@,
            FetchError::BadStatus(s) => s@,
            FetchError::Malformed(s) => s@,
        }
    }
}

} // verus!
