//! Shortest-path search (A*) over a compact, immutable jump graph.
//!
//! The search driver in [`astar`] is generic over the priority container, the
//! visitation store and the cost type ([`cost`]); [`simpleopen`] and
//! [`simpleclosed`] provide the default containers, and [`itemorder`] the
//! order of open items. What a search does, round by round, is said in
//! [`run`]; what it is run on and what it leaves behind in [`graph`];
//! [`frontier`], [`soundness`], [`optimality`] and [`trail`] hold the
//! reasons.
//!
//! [`evemap`] is the graph the search is used on: solar systems under dense
//! indices, built in [`mapbuild`] from the records that [`staticdata`] reads
//! from the files that [`sde`] picks. [`route`] runs the search on it.

pub mod astar;
pub mod cell;
pub mod cost;
pub mod evemap;
pub mod frontier;
pub mod graph;
pub mod soundness;
pub mod itemorder;
pub mod mapbuild;
pub mod optimality;
pub mod route;
pub mod run;
pub mod sde;
pub mod simpleclosed;
pub mod simpleopen;
pub mod staticdata;
pub mod trail;
