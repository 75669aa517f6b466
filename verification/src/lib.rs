//! Football results toolkit: typed data tables and the match-data logic
//! (cleaning, typing, assembling a master table, goal-superiority features
//! and season summaries) built on them.

pub mod text;
pub mod data;
pub mod table;
pub mod ordmap;
pub mod dates;
pub mod football;
