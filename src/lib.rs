//! Multi-modal trip planning over a small transportation network: path
//! enumeration, a mode-transition validator with cost accounting, ranking of
//! the accepted trips, and a minimum-time search.

pub mod network;
pub mod trip;
pub mod paths;
pub mod search;
pub mod ranking;
