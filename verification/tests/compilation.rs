use seastar::builder::compilation::{
    compile_files, is_rebuild_required, object_file, object_files, FileStamp, LanguageBuilder,
    SourceUnit,
};

fn strings(items: &[&str]) -> Vec<String> {
    items.iter().map(|s| s.to_string()).collect()
}

fn c_language(flags: &str) -> LanguageBuilder {
    LanguageBuilder {
        name: "C".to_string(),
        extensions: strings(&["c"]),
        compiler: "gcc".to_string(),
        include_flag: Some("-I".to_string()),
        compile_flags: flags.to_string(),
    }
}

fn cpp_language() -> LanguageBuilder {
    LanguageBuilder {
        name: "C++".to_string(),
        extensions: strings(&["cpp", "cc", "cxx", "c++"]),
        compiler: "g++".to_string(),
        include_flag: Some("-I".to_string()),
        compile_flags: String::new(),
    }
}

fn unit(path: &str, modified: FileStamp, object: FileStamp) -> SourceUnit {
    SourceUnit { path: path.to_string(), modified, object }
}

#[test]
fn rebuild_when_the_object_is_missing() {
    assert!(is_rebuild_required(&FileStamp::Modified(5), &FileStamp::Missing));
    assert!(is_rebuild_required(&FileStamp::Unreadable, &FileStamp::Missing));
    assert!(is_rebuild_required(&FileStamp::Missing, &FileStamp::Missing));
}

#[test]
fn rebuild_when_the_source_is_strictly_newer() {
    assert!(is_rebuild_required(&FileStamp::Modified(11), &FileStamp::Modified(10)));
    assert!(is_rebuild_required(&FileStamp::Modified(u128::MAX), &FileStamp::Modified(0)));
}

#[test]
fn no_rebuild_when_the_object_is_as_new_or_newer() {
    assert!(!is_rebuild_required(&FileStamp::Modified(10), &FileStamp::Modified(10)));
    assert!(!is_rebuild_required(&FileStamp::Modified(10), &FileStamp::Modified(11)));
    assert!(!is_rebuild_required(&FileStamp::Modified(0), &FileStamp::Modified(0)));
}

#[test]
fn rebuild_when_a_stamp_cannot_be_read() {
    assert!(is_rebuild_required(&FileStamp::Unreadable, &FileStamp::Modified(10)));
    assert!(is_rebuild_required(&FileStamp::Modified(10), &FileStamp::Unreadable));
    assert!(is_rebuild_required(&FileStamp::Missing, &FileStamp::Modified(10)));
}

#[test]
fn object_name_keeps_the_source_extension() {
    assert_eq!(object_file("target/obj", "src/main.c"), "target/obj/main.c.o");
    assert_eq!(object_file("target/obj", "src/main.cpp"), "target/obj/main.cpp.o");
    assert_eq!(object_file("target/obj/", "src/sub/util.CC"), "target/obj/util.CC.o");
    assert_eq!(object_file("obj", "noext"), "obj/noext..o");
    assert_eq!(object_file("obj", "dir/"), "obj/unknown..o");
}

#[test]
fn language_matches_by_extension_whatever_the_case() {
    let c = c_language("");
    let cpp = cpp_language();
    assert!(c.matches("a.c"));
    assert!(c.matches("dir/a.C"));
    assert!(!c.matches("a.cpp"));
    assert!(!c.matches("a.h"));
    assert!(!c.matches("c"));
    assert!(!c.matches(".c"));
    assert!(cpp.matches("a.cpp"));
    assert!(cpp.matches("a.CPP"));
    assert!(cpp.matches("a.Cc"));
    assert!(cpp.matches("a.cxx"));
    assert!(cpp.matches("a.c++"));
    assert!(!cpp.matches("a.c"));
}

#[test]
fn compile_command_lists_includes_flags_source_and_object() {
    let lang = c_language("  -O2 -Wall  ");
    let inv = lang.compile_command(
        "src/main.c",
        "target/obj/main.c.o",
        &strings(&["deps/headers", "include"]),
    );
    assert_eq!(inv.program, "gcc");
    assert_eq!(
        inv.args,
        strings(&[
            "-Ideps/headers",
            "-Iinclude",
            "-O2",
            "-Wall",
            "-c",
            "src/main.c",
            "-o",
            "target/obj/main.c.o",
        ])
    );
}

#[test]
fn compile_command_without_include_flag_names_no_directory() {
    let mut lang = c_language("-g");
    lang.include_flag = None;
    let inv = lang.compile_command("a.c", "a.c.o", &strings(&["include"]));
    assert_eq!(inv.args, strings(&["-g", "-c", "a.c", "-o", "a.c.o"]));
}

#[test]
fn compile_files_passes_over_other_languages() {
    let units = vec![
        unit("src/a.c", FileStamp::Modified(1), FileStamp::Missing),
        unit("src/b.cpp", FileStamp::Modified(1), FileStamp::Missing),
        unit("src/README", FileStamp::Modified(1), FileStamp::Missing),
        unit("src/c.C", FileStamp::Modified(1), FileStamp::Missing),
    ];
    let steps = compile_files(&c_language(""), &units, "obj", &Vec::new());
    assert_eq!(steps.len(), 2);
    assert_eq!(steps[0].source, "src/a.c");
    assert_eq!(steps[0].object, "obj/a.c.o");
    assert_eq!(steps[1].source, "src/c.C");
    assert_eq!(steps[1].object, "obj/c.C.o");
    assert_eq!(object_files(&steps), strings(&["obj/a.c.o", "obj/c.C.o"]));
}

#[test]
fn compile_files_compiles_stale_sources_only() {
    let units = vec![
        unit("src/fresh.c", FileStamp::Modified(10), FileStamp::Modified(20)),
        unit("src/stale.c", FileStamp::Modified(30), FileStamp::Modified(20)),
        unit("src/new.c", FileStamp::Modified(10), FileStamp::Missing),
    ];
    let steps = compile_files(&c_language("-O1"), &units, "obj", &strings(&["include"]));
    assert_eq!(steps.len(), 3);
    assert!(steps[0].command.is_none());
    let stale = steps[1].command.as_ref().unwrap();
    assert_eq!(stale.program, "gcc");
    assert_eq!(stale.args, strings(&["-Iinclude", "-O1", "-c", "src/stale.c", "-o", "obj/stale.c.o"]));
    let new = steps[2].command.as_ref().unwrap();
    assert_eq!(new.args, strings(&["-Iinclude", "-O1", "-c", "src/new.c", "-o", "obj/new.c.o"]));
    assert_eq!(object_files(&steps), strings(&["obj/fresh.c.o", "obj/stale.c.o", "obj/new.c.o"]));
}

#[test]
fn compile_files_of_a_fresh_batch_runs_no_compiler() {
    let units = vec![
        unit("src/a.c", FileStamp::Modified(10), FileStamp::Modified(10)),
        unit("src/b.c", FileStamp::Modified(10), FileStamp::Modified(99)),
    ];
    let steps = compile_files(&c_language(""), &units, "obj", &Vec::new());
    assert_eq!(steps.len(), 2);
    assert!(steps.iter().all(|s| s.command.is_none()));
}

#[test]
fn compile_files_of_nothing_plans_nothing() {
    let steps = compile_files(&cpp_language(), &Vec::new(), "obj", &Vec::new());
    assert!(steps.is_empty());
    assert!(object_files(&steps).is_empty());
}
