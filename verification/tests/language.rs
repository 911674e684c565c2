use seastar::io::{Config, Options};
use seastar::language::{CLang, CppLang, Language};
use seastar::templater::get_template_name;

fn config() -> Config {
    Config {
        project_name: "app".to_string(),
        compiler: "tcc".to_string(),
        is_library: false,
        cpp_compiler: None,
        options: Options::default(),
        dependencies: Vec::new(),
    }
}

#[test]
fn default_options_are_empty() {
    let options = Options::default();
    assert_eq!(options.c_flags, "");
    assert_eq!(options.link_flags, "");
    assert_eq!(options.cpp_flags, None);
    assert_eq!(options.cpp_link_flags, None);
}

#[test]
fn c_language_reads_the_c_settings() {
    let mut cfg = config();
    cfg.options.c_flags = "-O3".to_string();
    cfg.options.link_flags = "-lm".to_string();
    assert_eq!(CLang.name(), "C");
    assert_eq!(CLang.file_extensions(), vec!["c"]);
    assert_eq!(CLang.compiler(&cfg), "tcc");
    assert_eq!(CLang.compile_flags(&cfg.options), "-O3");
    assert_eq!(CLang.link_flags(&cfg.options), "-lm");
}

#[test]
fn cpp_language_falls_back_to_defaults() {
    let cfg = config();
    assert_eq!(CppLang.name(), "C++");
    assert_eq!(CppLang.file_extensions(), vec!["cpp", "cc", "cxx", "c++"]);
    assert_eq!(CppLang.compiler(&cfg), "g++");
    assert_eq!(CppLang.compile_flags(&cfg.options), "");
    assert_eq!(CppLang.link_flags(&cfg.options), "");
}

#[test]
fn cpp_language_reads_the_cpp_settings() {
    let mut cfg = config();
    cfg.cpp_compiler = Some("clang++".to_string());
    cfg.options.cpp_flags = Some("-std=c++20".to_string());
    cfg.options.cpp_link_flags = Some("-lfmt".to_string());
    assert_eq!(CppLang.compiler(&cfg), "clang++");
    assert_eq!(CppLang.compile_flags(&cfg.options), "-std=c++20");
    assert_eq!(CppLang.link_flags(&cfg.options), "-lfmt");
}

#[test]
fn template_name_joins_language_and_kind() {
    assert_eq!(get_template_name("c", false), "c-bin");
    assert_eq!(get_template_name("cpp", true), "cpp-lib");
    assert_eq!(get_template_name("", true), "-lib");
}
