//! Constraint-evaluation and solution-state core of a vehicle-routing
//! optimizer.
//!
//! The crate decides, during incremental construction of routes, whether
//! inserting a given job at a given position of a vehicle's route is feasible
//! (hard constraints) and how costly it is (soft constraints), and it keeps
//! the global bookkeeping of which jobs are required, ignored or unassigned.
//!
//! Modules, leaf first:
//! - [`dimens`]: the string-keyed typed property bag attached to jobs and
//!   vehicles;
//! - [`domain`]: jobs, activities, tours, routes and actors;
//! - [`states`]: the mutable solution, route and activity state the
//!   constraint framework reads and repairs, with its ghost model;
//! - [`constraints`]: the generic hard/soft constraint framework and the
//!   conditional job module;
//! - [`breaks`]: the driver-break constraint module built on all of the
//!   above.

pub mod breaks;
pub mod constraints;
pub mod dimens;
pub mod domain;
pub mod states;
