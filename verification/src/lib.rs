//! Routing and simulation core of a flight radar: a waypoint router, the
//! turn planning and assembly of flight paths, the kinematics of flying
//! them, and the bookkeeping of simulated flights.
//!
//! Positions are points of the integer lattice, lengths are counted in fine
//! units (thousandths of a length unit), and times in milliseconds. The
//! numbers of arcs and tangents are not computed here: the path assembly
//! takes them from a geometry that the caller supplies.

pub mod airport;
pub mod csv;
pub mod distance;
pub mod flight_path;
pub mod flight_route;
pub mod generation;
pub mod iter;
pub mod kinematics;
pub mod network;
pub mod random;
pub mod router;
pub mod simulator;
pub mod time;
pub mod turns;
pub mod types;
pub mod vector;
