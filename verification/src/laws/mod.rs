//! What holds of the library as a whole.
pub mod adding;
pub mod append;
pub mod blocks;
pub mod chunks;
pub mod damage;
pub mod display;
pub mod events;
pub mod extent;
pub mod flush;
pub mod import;
pub mod layout;
pub mod lookup;
pub mod maintenance;
pub mod notation;
pub mod pending;
pub mod results;
pub mod rules;
pub mod search;
pub mod stats;
pub mod tools;
