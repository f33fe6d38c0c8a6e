//! The commands: what each decides, and what it shows.

pub mod apps;
pub mod clean;
pub mod dev;
pub mod du;
pub mod dupes;
pub mod flow;
pub mod orphans;
pub mod rules;
pub mod scan;
pub mod trash;
