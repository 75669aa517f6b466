//! The football results logic.

pub mod counts;
pub mod data_check;
pub mod data_prep;
pub mod feature_add;
pub mod graphs;
pub mod sup_order;
