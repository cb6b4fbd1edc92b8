//! Estimation of per-flow latency distributions in data-center networks.
//!
//! A topology of hosts, switches and links is combined with a workload of
//! flows into a network whose edges carry flows; every edge is then simulated
//! in isolation and the results are folded into a network of delay
//! distributions that can be queried for flow completion times.

pub mod client;
pub mod cluster;
pub mod clustering;
pub mod constants;
pub mod distribute;
pub mod edist;
pub mod fxhash;
pub mod graph;
pub mod limbs;
pub mod linksim;
pub mod network;
pub mod ns3;
pub mod random;
pub mod routing;
pub mod run;
pub mod seqs;
pub mod shortest;
pub mod spec;
pub mod testing;
pub mod units;
pub mod utils;
