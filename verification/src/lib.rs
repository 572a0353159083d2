//! Query plans for groups of Datalog strata.

pub mod arguments;
pub mod collections;
pub mod declarations;
pub mod expressions;
pub mod group;
pub mod heads;
pub mod inversion;
pub mod keyed;
pub mod layout;
pub mod model;
pub mod names;
pub mod numbering;
pub mod order;
pub mod rendering;
pub mod rule;
pub mod schedule;
pub mod sharing;
pub mod strata;
pub mod text;
pub mod transformations;
pub mod writing;
