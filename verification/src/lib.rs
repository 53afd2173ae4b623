use vstd::prelude::*;

pub mod text;
pub mod paths;
pub mod joining;
pub mod distance;
pub mod config;
pub mod workspace;
pub mod cli;
pub mod position;
pub mod graph;
pub mod routing;
pub mod deps;
pub mod env;
pub mod offset;
pub mod fixes;
pub mod pysource;
pub mod report;
pub mod diagnostics;
pub mod checks;
pub mod params;
pub mod analysis;
pub mod mounts;
pub mod lenses;
pub mod hovers;
pub mod navigation;
pub mod goto;
pub mod completion;
pub mod actions;
pub mod extract;
pub mod named_dep;
pub mod assist;
pub mod names;
pub mod indexing;
pub mod caches;
pub mod settings;
pub mod testrefs;
pub mod envkeys;
pub mod envindex;
