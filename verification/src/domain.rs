//! Domain entities consumed by the constraint core: jobs, activities,
//! tours, routes and actors.
//!
//! Jobs are immutable once built and are identified by a stable integer
//! `id`; every set- or map-like membership in this crate goes by that id,
//! which makes the identity scheme explicit instead of relying on pointer
//! identity.

use vstd::prelude::*;

use crate::dimens::Dimensions;

verus! {

/// A location index in the routing matrix.
pub type Location = usize;

/// A point in scheduled time.
pub type Timestamp = i64;

/// A soft-constraint cost delta.
pub type Cost = i64;

/// A half-open candidate time window for serving a job.
pub struct TimeWindow {
    pub start: Timestamp,
    pub end: Timestamp,
}

/// Arrival and departure times of one activity.
pub struct Schedule {
    pub arrival: Timestamp,
    pub departure: Timestamp,
}

/// One candidate place of a single job: an optional fixed location and the
/// windows in which the job may be served. A `None` location means the job
/// inherits the location of the activity it is inserted after.
pub struct Place {
    pub location: Option<Location>,
    pub times: Vec<TimeWindow>,
}

/// A single-activity job: one stop with candidate places and semantic tags.
pub struct Single {
    /// Stable identity of the owning job.
    pub id: u64,
    pub places: Vec<Place>,
    pub dimens: Dimensions,
}

/// A multi-activity job: an ordered group of single activities that must be
/// inserted together.
pub struct Multi {
    /// Stable identity of the owning job.
    pub id: u64,
    pub jobs: Vec<Single>,
    pub dimens: Dimensions,
}

/// A unit of work to be served by some vehicle.
pub enum Job {
    Single(Single),
    Multi(Multi),
}

impl Job {
    /// The stable identity of the job.
    pub open spec fn spec_id(self) -> u64 {
        match self {
            Job::Single(s) => s.id,
            Job::Multi(m) => m.id,
        }
    }

    /// The stable identity of the job.
    pub fn id(&self) -> (r: u64)
        ensures
            r == self.spec_id(),
    {
        match self {
            Job::Single(s) => s.id,
            Job::Multi(m) => m.id,
        }
    }
}

/// The place chosen for one activity: a concrete location.
pub struct ActivityPlace {
    pub location: Location,
}

/// One concrete visit within a route's tour. Depot start and end
/// activities reference no job.
pub struct Activity {
    pub place: ActivityPlace,
    pub schedule: Schedule,
    pub job: Option<Job>,
}

/// A vehicle, tagged with at least an `"id"` and a `"shift_index"`
/// dimension.
pub struct Vehicle {
    pub dimens: Dimensions,
}

/// The vehicle plus shift combination a route is bound to.
pub struct Actor {
    pub vehicle: Vehicle,
}

/// The ordered activity sequence of one route. The first activity is
/// always a departure and never a break.
pub struct Tour {
    pub activities: Vec<Activity>,
}

impl Tour {
    /// The last activity of the tour, if any.
    pub fn end<'a>(&'a self) -> (r: Option<&'a Activity>)
        ensures
            match r {
                Some(a) => self.activities@.len() > 0 && *a == self.activities@.last(),
                None => self.activities@.len() == 0,
            },
    {
        let n = self.activities.len();
        if n == 0 {
            None
        } else {
            Some(&self.activities[n - 1])
        }
    }
}

/// An ordered activity sequence bound to one actor.
pub struct Route {
    pub actor: Actor,
    pub tour: Tour,
}

/// Record of the vehicle/shift resources already in use by some route,
/// held by vehicle id. Mutated only when routes are created or retired.
pub struct Registry {
    pub used: Vec<String>,
}

} // verus!
