use seastar::paths::{join_path, path_extension, path_is_archive, path_stem, replace_extension};

#[test]
fn extension_is_what_follows_the_last_dot_of_the_file_name() {
    assert_eq!(path_extension("src/main.c"), Some("c".to_string()));
    assert_eq!(path_extension("src/a.b/main.tar.gz"), Some("gz".to_string()));
    assert_eq!(path_extension("main.C++"), Some("C++".to_string()));
    assert_eq!(path_extension("name."), Some("".to_string()));
}

#[test]
fn extension_is_absent_without_a_dot_or_with_a_leading_dot_only() {
    assert_eq!(path_extension("Makefile"), None);
    assert_eq!(path_extension("src.d/Makefile"), None);
    assert_eq!(path_extension(".gitignore"), None);
    assert_eq!(path_extension("dir/.gitignore"), None);
    assert_eq!(path_extension(""), None);
    assert_eq!(path_extension("dir/"), None);
}

#[test]
fn stem_is_the_file_name_without_its_extension() {
    assert_eq!(path_stem("src/main.c"), "main");
    assert_eq!(path_stem("src/a.b/main.tar.gz"), "main.tar");
    assert_eq!(path_stem("Makefile"), "Makefile");
    assert_eq!(path_stem(".gitignore"), ".gitignore");
    assert_eq!(path_stem("dir/"), "");
    assert_eq!(path_stem(""), "");
}

#[test]
fn stem_and_extension_agree_with_std_on_plain_file_paths() {
    let samples = ["a.c", "src/b.cpp", "x/y.z/w", "x/.hidden", "x/.hidden.txt", "deep/er/f.o.a", "é/ü.ß"];
    for s in samples {
        let p = std::path::Path::new(s);
        let ext = p.extension().map(|e| e.to_str().unwrap().to_string());
        let stem = p.file_stem().unwrap().to_str().unwrap().to_string();
        assert_eq!(path_extension(s), ext, "extension of {:?}", s);
        assert_eq!(path_stem(s), stem, "stem of {:?}", s);
    }
}

#[test]
fn join_puts_one_separator_between() {
    assert_eq!(join_path("target/obj", "main.c.o"), "target/obj/main.c.o");
    assert_eq!(join_path("target/obj/", "main.c.o"), "target/obj/main.c.o");
    assert_eq!(join_path("", "main.c.o"), "main.c.o");
    assert_eq!(join_path("deps", ""), "deps/");
}

#[test]
fn join_with_a_rooted_name_is_the_name() {
    assert_eq!(join_path("target", "/abs/name"), "/abs/name");
}

#[test]
fn join_agrees_with_std() {
    let samples = [("a", "b"), ("a/", "b"), ("", "b"), ("a", "/b"), ("a/b", "c/d"), ("a", "")];
    for (dir, name) in samples {
        let expected = std::path::Path::new(dir).join(name);
        assert_eq!(join_path(dir, name), expected.to_str().unwrap(), "join of {:?} and {:?}", dir, name);
    }
}

#[test]
fn replace_extension_swaps_or_adds() {
    assert_eq!(replace_extension("target/app", "a"), "target/app.a");
    assert_eq!(replace_extension("target/my.lib", "a"), "target/my.a");
    assert_eq!(replace_extension("target/.hidden", "a"), "target/.hidden.a");
    assert_eq!(replace_extension("ta.rget/app", "a"), "ta.rget/app.a");
}

#[test]
fn replace_extension_leaves_a_path_without_file_name() {
    assert_eq!(replace_extension("target/", "a"), "target/");
    assert_eq!(replace_extension("", "a"), "");
}

#[test]
fn archives_are_known_by_the_extension_a() {
    assert!(path_is_archive("deps/foo/libfoo.a"));
    assert!(path_is_archive("x.a"));
    assert!(!path_is_archive("x.o"));
    assert!(!path_is_archive("x.A"));
    assert!(!path_is_archive("x.aa"));
    assert!(!path_is_archive("x.a.o"));
    assert!(!path_is_archive(".a"));
    assert!(!path_is_archive("dir/.a"));
    assert!(!path_is_archive("a"));
    assert!(!path_is_archive("-Wl,--start-group"));
}
