//! The core of a web-asset bundler, with contracts proved by Verus.
//!
//! - `module`, `module_graph`: module kinds and the graph of modules with
//!   ordered edges.
//! - `driver`: the build's decisions: which resolved ids to parse (each at
//!   most once) and how references become edges.
//! - `module_group`, `partition`: groups of statically reachable modules,
//!   split at dynamic imports, and their pots, one per kind.
//! - `resolve`: query strings, root-relative module ids, and the path resolver.
//! - `esm`, `bundle`: lowering ES module declarations and the bundle text.
//! - `css`, `html`: stylesheet rules and `@import`s; document references and
//!   the resources injected in their place.
//! - `generate`: resources from pots, and which resources to write.
//! - `plugin`: hook records, plugin order and how hook results combine.

pub mod config;
pub mod error;
pub mod text;
pub mod module;
pub mod module_graph;
pub mod module_group;
pub mod partition;
pub mod resource;
pub mod resolve;
pub mod driver;
pub mod esm;
pub mod bundle;
pub mod generate;
pub mod html;
pub mod css;
pub mod plugin;
