//! The planning core of a build tool for C and C++ projects.
//!
//! The library decides; it touches neither the file system nor any tool. A
//! program around it reads what the decisions rest on (the configuration,
//! the source files, their modification times), asks the library for a
//! plan, and carries the plan out:
//!
//! - [`builder::compilation`] tells which sources of a language are stale
//!   and gives the compiler run for each of them;
//! - [`builder::linking`] gives the archiver or linker run, with the static
//!   archives of a link wrapped in one link group;
//! - [`builder`] plans the build of the main project and of a dependency;
//! - [`depman::resolver`] reads the declared dependencies and walks them
//!   depth first, handing out each name once for fetching;
//! - [`depman::fetch`] plans the fetch of one dependency;
//! - [`depman::graph`] holds the resolved graph and orders it for
//!   building, dependencies first.

pub mod builder;
pub mod depman;
pub mod io;
pub mod language;
pub mod paths;
pub mod templater;
pub mod text;
