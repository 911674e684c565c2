//! The project configuration as the planner reads it.

use vstd::prelude::*;

verus! {

/// Flag strings of a project, each a whitespace-separated list.
#[derive(Debug, Clone)]
pub struct Options {
    pub c_flags: String,
    pub link_flags: String,
    pub cpp_flags: Option<String>,
    pub cpp_link_flags: Option<String>,
}

impl Default for Options {
    fn default() -> (r: Options)
        ensures
            r.c_flags@.len() == 0,
            r.link_flags@.len() == 0,
            r.cpp_flags is None,
            r.cpp_link_flags is None,
    {
        Options {
            c_flags: String::new(),
            link_flags: String::new(),
            cpp_flags: None,
            cpp_link_flags: None,
        }
    }
}

/// How a configuration file declares one dependency: a bare repository URL,
/// or a record that may name a repository, a tag and a local path.
#[derive(Debug, Clone)]
pub enum DepSpec {
    Simple(String),
    Detailed { git: Option<String>, tag: Option<String>, path: Option<String> },
}

/// A project's configuration. `dependencies` holds the declared
/// dependencies by name, in the order in which they are to be read.
#[derive(Debug, Clone)]
pub struct Config {
    pub project_name: String,
    pub compiler: String,
    pub is_library: bool,
    pub cpp_compiler: Option<String>,
    pub options: Options,
    pub dependencies: Vec<(String, DepSpec)>,
}

} // verus!
