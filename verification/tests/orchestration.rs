use seastar::builder::compilation::{FileStamp, SourceUnit};
use seastar::builder::{build, build_dep, dep_layout, describe, is_source};
use seastar::io::{Config, Options};
use seastar::language::{CLang, CppLang};

fn strings(items: &[&str]) -> Vec<String> {
    items.iter().map(|s| s.to_string()).collect()
}

fn config(name: &str, is_library: bool) -> Config {
    Config {
        project_name: name.to_string(),
        compiler: "clang".to_string(),
        is_library,
        cpp_compiler: Some("clang++".to_string()),
        options: Options {
            c_flags: "-O2".to_string(),
            link_flags: "-lm".to_string(),
            cpp_flags: Some("-std=c++17".to_string()),
            cpp_link_flags: Some("-lstdc++fs".to_string()),
        },
        dependencies: Vec::new(),
    }
}

fn stale(path: &str) -> SourceUnit {
    SourceUnit { path: path.to_string(), modified: FileStamp::Modified(2), object: FileStamp::Missing }
}

fn fresh(path: &str) -> SourceUnit {
    SourceUnit {
        path: path.to_string(),
        modified: FileStamp::Modified(2),
        object: FileStamp::Modified(3),
    }
}

#[test]
fn single_c_file_is_compiled_once_and_linked_once() {
    let plan = build(&config("app", false), &vec![stale("src/main.c")], "target/obj", "target", &Vec::new());
    assert_eq!(plan.compile.len(), 1);
    let compile = plan.compile[0].command.as_ref().unwrap();
    assert_eq!(compile.program, "clang");
    assert_eq!(
        compile.args,
        strings(&["-Ideps/headers", "-Iinclude", "-O2", "-c", "src/main.c", "-o", "target/obj/main.c.o"])
    );
    assert_eq!(plan.link.program, "clang");
    assert_eq!(plan.link.args, strings(&["target/obj/main.c.o", "-lm", "-o", "target/app"]));
    assert_eq!(plan.output, "target/app");
}

#[test]
fn library_project_is_archived() {
    let plan = build(&config("mylib", true), &vec![stale("src/a.c")], "target/obj", "target", &Vec::new());
    assert_eq!(plan.output, "target/mylib.a");
    assert_eq!(plan.link.program, "ar");
    assert_eq!(plan.link.args, strings(&["rcs", "target/mylib.a", "target/obj/a.c.o"]));
}

#[test]
fn library_output_replaces_an_extension_of_the_name() {
    let plan = build(&config("my.lib", true), &Vec::new(), "target/obj", "target", &Vec::new());
    assert_eq!(plan.output, "target/my.a");
}

#[test]
fn cpp_source_makes_the_cpp_compiler_the_link_driver() {
    let sources = vec![stale("src/a.c"), stale("src/b.cpp")];
    let plan = build(&config("app", false), &sources, "obj", "out", &Vec::new());
    assert_eq!(plan.compile.len(), 2);
    assert_eq!(plan.compile[0].source, "src/a.c");
    assert_eq!(plan.compile[0].command.as_ref().unwrap().program, "clang");
    assert_eq!(plan.compile[1].source, "src/b.cpp");
    let cpp = plan.compile[1].command.as_ref().unwrap();
    assert_eq!(cpp.program, "clang++");
    assert_eq!(
        cpp.args,
        strings(&["-Ideps/headers", "-Iinclude", "-std=c++17", "-c", "src/b.cpp", "-o", "obj/b.cpp.o"])
    );
    assert_eq!(plan.link.program, "clang++");
    assert_eq!(plan.link.args, strings(&["obj/a.c.o", "obj/b.cpp.o", "-lstdc++fs", "-o", "out/app"]));
}

#[test]
fn cpp_sources_come_behind_c_sources_whatever_their_order() {
    let sources = vec![stale("src/z.cc"), stale("src/a.c"), stale("src/m.CXX"), stale("src/b.c")];
    let plan = build(&config("app", false), &sources, "obj", "out", &Vec::new());
    let order: Vec<&str> = plan.compile.iter().map(|s| s.source.as_str()).collect();
    assert_eq!(order, vec!["src/a.c", "src/b.c", "src/z.cc", "src/m.CXX"]);
    assert_eq!(plan.link.program, "clang++");
}

#[test]
fn cpp_defaults_apply_without_configuration() {
    let mut cfg = config("app", false);
    cfg.cpp_compiler = None;
    cfg.options.cpp_flags = None;
    cfg.options.cpp_link_flags = None;
    let plan = build(&cfg, &vec![stale("src/b.cpp")], "obj", "out", &Vec::new());
    let cpp = plan.compile[0].command.as_ref().unwrap();
    assert_eq!(cpp.program, "g++");
    assert_eq!(cpp.args, strings(&["-Ideps/headers", "-Iinclude", "-c", "src/b.cpp", "-o", "obj/b.cpp.o"]));
    assert_eq!(plan.link.program, "g++");
    assert_eq!(plan.link.args, strings(&["obj/b.cpp.o", "-o", "out/app"]));
}

#[test]
fn unchanged_tree_recompiles_nothing_and_still_links() {
    let sources = vec![fresh("src/a.c"), fresh("src/b.c")];
    let plan = build(&config("app", false), &sources, "obj", "out", &Vec::new());
    assert_eq!(plan.compile.len(), 2);
    assert!(plan.compile.iter().all(|s| s.command.is_none()));
    assert_eq!(plan.link.program, "clang");
    assert_eq!(plan.link.args, strings(&["obj/a.c.o", "obj/b.c.o", "-lm", "-o", "out/app"]));
}

#[test]
fn dependency_archives_are_linked_in_one_group_behind_the_objects() {
    let archives = strings(&["deps/c/libc.a", "deps/b/libb.a"]);
    let plan = build(&config("app", false), &vec![fresh("src/a.c")], "obj", "out", &archives);
    assert_eq!(
        plan.link.args,
        strings(&[
            "obj/a.c.o",
            "-Wl,--start-group",
            "deps/c/libc.a",
            "deps/b/libb.a",
            "-Wl,--end-group",
            "-lm",
            "-o",
            "out/app",
        ])
    );
}

#[test]
fn missing_dependency_archive_is_still_named_to_the_linker() {
    // a dependency that could not be fetched leaves no archive behind; the
    // link that names its path is what fails, not the plan
    let archives = strings(&["deps/gone/libgone.a"]);
    let plan = build(&config("app", false), &vec![fresh("src/a.c")], "obj", "out", &archives);
    assert!(plan.link.args.contains(&"deps/gone/libgone.a".to_string()));
}

#[test]
fn describe_fills_a_descriptor_from_the_configuration() {
    let cfg = config("app", false);
    let c = describe(&CLang, &cfg);
    assert_eq!(c.name, "C");
    assert_eq!(c.extensions, strings(&["c"]));
    assert_eq!(c.compiler, "clang");
    assert_eq!(c.include_flag, Some("-I".to_string()));
    assert_eq!(c.compile_flags, "-O2");
    let cpp = describe(&CppLang, &cfg);
    assert_eq!(cpp.name, "C++");
    assert_eq!(cpp.extensions, strings(&["cpp", "cc", "cxx", "c++"]));
    assert_eq!(cpp.compiler, "clang++");
    assert_eq!(cpp.compile_flags, "-std=c++17");
}

#[test]
fn sources_are_c_or_cpp_files() {
    for path in ["a.c", "a.C", "a.cpp", "a.cc", "a.cxx", "a.c++", "x/y.CPP"] {
        assert!(is_source(path), "{}", path);
    }
    for path in ["a.h", "a.hpp", "a.o", "a.rs", "Makefile", ".c", "a.c.bak"] {
        assert!(!is_source(path), "{}", path);
    }
}

#[test]
fn every_source_belongs_to_one_language() {
    let cfg = config("app", false);
    let c = describe(&CLang, &cfg);
    let cpp = describe(&CppLang, &cfg);
    for path in ["a.c", "a.C", "a.cpp", "a.CC", "a.cXx", "a.c++", "a.h", "noext"] {
        let both = c.matches(path) && cpp.matches(path);
        assert!(!both, "{}", path);
        assert_eq!(is_source(path), c.matches(path) || cpp.matches(path), "{}", path);
    }
}

#[test]
fn dependency_layout_lies_under_deps() {
    let layout = dep_layout("foo");
    assert_eq!(layout.headers_from, "deps/foo/external_headers");
    assert_eq!(layout.headers_to, "deps/headers/foo");
    assert_eq!(layout.source_dir, "deps/foo/src");
    assert_eq!(layout.obj_dir, "deps/foo/obj");
    assert_eq!(layout.library, "deps/foo/libfoo.a");
}

#[test]
fn dependency_without_sources_builds_nothing() {
    assert!(build_dep("foo", &Vec::new()).is_none());
}

#[test]
fn dependency_is_compiled_with_default_compilers_and_archived() {
    let sources = vec![stale("deps/foo/src/x.cpp"), stale("deps/foo/src/y.c")];
    let plan = build_dep("foo", &sources).unwrap();
    assert_eq!(plan.library, "deps/foo/libfoo.a");
    assert_eq!(plan.compile.len(), 2);
    let c = plan.compile[0].command.as_ref().unwrap();
    assert_eq!(c.program, "gcc");
    assert_eq!(c.args, strings(&["-Ideps/headers", "-c", "deps/foo/src/y.c", "-o", "deps/foo/obj/y.c.o"]));
    let cpp = plan.compile[1].command.as_ref().unwrap();
    assert_eq!(cpp.program, "g++");
    assert_eq!(
        cpp.args,
        strings(&["-Ideps/headers", "-c", "deps/foo/src/x.cpp", "-o", "deps/foo/obj/x.cpp.o"])
    );
    assert_eq!(plan.archive.program, "ar");
    assert_eq!(
        plan.archive.args,
        strings(&["rcs", "deps/foo/libfoo.a", "deps/foo/obj/y.c.o", "deps/foo/obj/x.cpp.o"])
    );
}
