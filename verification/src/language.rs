//! The languages the tool builds, and how a configuration fills in the
//! compiler and the flags of each.

use vstd::prelude::*;
use vstd::string::*;
use crate::io::{Config, Options};
use crate::text::views;

verus! {

/// The text of an optional string, or `default` where it is absent.
pub open spec fn text_or(value: Option<String>, default: Seq<char>) -> Seq<char> {
    match value {
        Some(s) => s@,
        None => default,
    }
}

/// A language that the tool can build.
pub trait Language {
    spec fn spec_name(&self) -> Seq<char>;

    spec fn spec_file_extensions(&self) -> Seq<Seq<char>>;

    spec fn spec_compiler(&self, config: &Config) -> Seq<char>;

    spec fn spec_compile_flags(&self, options: &Options) -> Seq<char>;

    spec fn spec_link_flags(&self, options: &Options) -> Seq<char>;

    fn name(&self) -> (r: &'static str)
        ensures
            r@ == self.spec_name(),
    ;

    fn file_extensions(&self) -> (r: Vec<String>)
        ensures
            views(r@) == self.spec_file_extensions(),
    ;

    fn compiler(&self, config: &Config) -> (r: String)
        ensures
            r@ == self.spec_compiler(config),
    ;

    fn compile_flags(&self, options: &Options) -> (r: String)
        ensures
            r@ == self.spec_compile_flags(options),
    ;

    fn link_flags(&self, options: &Options) -> (r: String)
        ensures
            r@ == self.spec_link_flags(options),
    ;
}

pub struct CLang;

pub struct CppLang;

/// The extensions of C sources.
pub open spec fn c_extensions() -> Seq<Seq<char>> {
    seq!["c"@]
}

/// The extensions of C++ sources.
pub open spec fn cpp_extensions() -> Seq<Seq<char>> {
    seq!["cpp"@, "cc"@, "cxx"@, "c++"@]
}

impl Language for CLang {
    open spec fn spec_name(&self) -> Seq<char> {
        "C"@
    }

    open spec fn spec_file_extensions(&self) -> Seq<Seq<char>> {
        c_extensions()
    }

    open spec fn spec_compiler(&self, config: &Config) -> Seq<char> {
        config.compiler@
    }

    open spec fn spec_compile_flags(&self, options: &Options) -> Seq<char> {
        options.c_flags@
    }

    open spec fn spec_link_flags(&self, options: &Options) -> Seq<char> {
        options.link_flags@
    }

    fn name(&self) -> (r: &'static str) {
        "C"
    }

    fn file_extensions(&self) -> (r: Vec<String>) {
        let mut v: Vec<String> = Vec::new();
        v.push("c".to_owned());
        assert(views(v@) == c_extensions());
        v
    }

    fn compiler(&self, config: &Config) -> (r: String) {
        config.compiler.clone()
    }

    fn compile_flags(&self, options: &Options) -> (r: String) {
        options.c_flags.clone()
    }

    fn link_flags(&self, options: &Options) -> (r: String) {
        options.link_flags.clone()
    }
}

impl Language for CppLang {
    open spec fn spec_name(&self) -> Seq<char> {
        "C++"@
    }

    open spec fn spec_file_extensions(&self) -> Seq<Seq<char>> {
        cpp_extensions()
    }

    open spec fn spec_compiler(&self, config: &Config) -> Seq<char> {
        text_or(config.cpp_compiler, "g++"@)
    }

    open spec fn spec_compile_flags(&self, options: &Options) -> Seq<char> {
        text_or(options.cpp_flags, Seq::empty())
    }

    open spec fn spec_link_flags(&self, options: &Options) -> Seq<char> {
        text_or(options.cpp_link_flags, Seq::empty())
    }

    fn name(&self) -> (r: &'static str) {
        "C++"
    }

    fn file_extensions(&self) -> (r: Vec<String>) {
        let mut v: Vec<String> = Vec::new();
        v.push("cpp".to_owned());
        v.push("cc".to_owned());
        v.push("cxx".to_owned());
        v.push("c++".to_owned());
        assert(views(v@) == cpp_extensions());
        v
    }

    fn compiler(&self, config: &Config) -> (r: String) {
        match &config.cpp_compiler {
            Some(c) => c.clone(),
            None => "g++".to_owned(),
        }
    }

    fn compile_flags(&self, options: &Options) -> (r: String) {
        match &options.cpp_flags {
            Some(f) => f.clone(),
            None => String::new(),
        }
    }

    fn link_flags(&self, options: &Options) -> (r: String) {
        match &options.cpp_link_flags {
            Some(f) => f.clone(),
            None => String::new(),
        }
    }
}

} // verus!
