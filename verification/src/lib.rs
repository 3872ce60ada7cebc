//! Where a service business should open: the discrete half of the placement study — cell ids,
//! archive layouts, search-volume groups, the quota ledger, the text features the ranking model
//! reads, and the map's control surface.
pub mod ads;
pub mod choice;
pub mod config;
pub mod expr;
pub mod find;
pub mod grid;
pub mod model;
pub mod order;
pub mod pattern;
pub mod pins;
pub mod poi;
pub mod rank;
pub mod search;
pub mod tally;
pub mod template;
pub mod text;
pub mod ui;
pub mod work;
