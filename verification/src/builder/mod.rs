//! The build of one unit, the main project or a dependency: its sources are
//! compiled language by language, and the objects are linked or archived.

pub mod compilation;
pub mod linking;

use vstd::prelude::*;
use vstd::string::*;
use crate::builder::compilation::{
    accepts, compile_files, object_files, step_views, CompileStep, CompileStepView, Invocation,
    InvocationView, LanguageBuilder, LanguageView, SourceUnit,
};
use crate::builder::linking::{archiver, link_args, link_invocation, link_objects};
use crate::io::Config;
use crate::language::{c_extensions, cpp_extensions, CLang, CppLang, Language};
use crate::paths::{extension, join, join_path, replace_extension, with_extension};
use crate::text::{lemma_views_push, same_ignoring_ascii_case, views};

verus! {

/// The directory under which the headers of all dependencies are gathered,
/// one subdirectory for each.
pub open spec fn headers_root() -> Seq<char> {
    "deps/headers"@
}

/// The include directories of the main project: the gathered headers of
/// its dependencies, then its own.
pub open spec fn project_include_dirs() -> Seq<Seq<char>> {
    seq![headers_root(), "include"@]
}

/// The descriptor of a language as a configuration fills it in.
pub open spec fn described<L: Language>(lang: &L, config: &Config) -> LanguageView {
    LanguageView {
        name: lang.spec_name(),
        extensions: lang.spec_file_extensions(),
        compiler: lang.spec_compiler(config),
        include_flag: Some("-I"@),
        compile_flags: lang.spec_compile_flags(&config.options),
    }
}

/// The descriptor of a language in the build of a dependency: the given
/// compiler, and no flags.
pub open spec fn described_plain<L: Language>(lang: &L, compiler: Seq<char>) -> LanguageView {
    LanguageView {
        name: lang.spec_name(),
        extensions: lang.spec_file_extensions(),
        compiler,
        include_flag: Some("-I"@),
        compile_flags: Seq::empty(),
    }
}

/// The object files of a sequence of steps.
pub open spec fn object_paths(steps: Seq<CompileStepView>) -> Seq<Seq<char>> {
    Seq::new(steps.len(), |i: int| steps[i].object)
}

/// Whether some source of the unit is a C++ source.
pub open spec fn uses_cpp(sources: Seq<SourceUnit>) -> bool {
    exists|i: int| 0 <= i < sources.len() && accepts(cpp_extensions(), (#[trigger] sources[i]).path@)
}

/// Where the final artifact goes: the project's name under the output
/// directory, with the extension `a` for a library.
pub open spec fn output_path(config: &Config, output_dir: Seq<char>) -> Seq<char> {
    let plain = join(output_dir, config.project_name@);
    if config.is_library {
        with_extension(plain, "a"@)
    } else {
        plain
    }
}

/// The plan of a build of the main project.
#[derive(Debug)]
pub struct BuildPlan {
    /// The sources to compile: those of C, then those of C++.
    pub compile: Vec<CompileStep>,
    /// The run that links or archives the objects.
    pub link: Invocation,
    /// The path of the final artifact.
    pub output: String,
}

/// What a plan holds, as text.
pub struct BuildPlanView {
    pub compile: Seq<CompileStepView>,
    pub link: InvocationView,
    pub output: Seq<char>,
}

impl View for BuildPlan {
    type V = BuildPlanView;

    open spec fn view(&self) -> BuildPlanView {
        BuildPlanView { compile: step_views(self.compile@), link: self.link@, output: self.output@ }
    }
}

/// The build of the main project. Its sources are compiled as C or as C++
/// by their extensions. One C++ source makes the C++ compiler the link
/// driver, with the C++ link flags; without one the C compiler links, with
/// the C link flags. The project's objects are linked before the archives
/// of its dependencies.
pub open spec fn build_plan(
    config: &Config,
    sources: Seq<SourceUnit>,
    obj_dir: Seq<char>,
    output_dir: Seq<char>,
    dep_statics: Seq<Seq<char>>,
) -> BuildPlanView {
    let c = described(&CLang, config);
    let cpp = described(&CppLang, config);
    let compile = c.steps(sources, obj_dir, project_include_dirs()) + cpp.steps(
        sources,
        obj_dir,
        project_include_dirs(),
    );
    let driver = if uses_cpp(sources) {
        cpp.compiler
    } else {
        c.compiler
    };
    let flags = if uses_cpp(sources) {
        CppLang.spec_link_flags(&config.options)
    } else {
        CLang.spec_link_flags(&config.options)
    };
    let output = output_path(config, output_dir);
    BuildPlanView {
        compile,
        link: link_invocation(
            driver,
            object_paths(compile) + dep_statics,
            output,
            config.is_library,
            flags,
        ),
        output,
    }
}

/// The descriptor of `lang` for the project that `config` describes.
pub fn describe<L: Language>(lang: &L, config: &Config) -> (r: LanguageBuilder)
    ensures
        r@ == described(lang, config),
{
    LanguageBuilder {
        name: lang.name().to_owned(),
        extensions: lang.file_extensions(),
        compiler: lang.compiler(config),
        include_flag: Some("-I".to_owned()),
        compile_flags: lang.compile_flags(&config.options),
    }
}

fn describe_plain<L: Language>(lang: &L, compiler: &str) -> (r: LanguageBuilder)
    ensures
        r@ == described_plain(lang, compiler@),
{
    LanguageBuilder {
        name: lang.name().to_owned(),
        extensions: lang.file_extensions(),
        compiler: compiler.to_owned(),
        include_flag: Some("-I".to_owned()),
        compile_flags: String::new(),
    }
}

fn any_accepted(lang: &LanguageBuilder, sources: &Vec<SourceUnit>) -> (r: bool)
    ensures
        r == exists|i: int|
            0 <= i < sources.len() && accepts(lang@.extensions, (#[trigger] sources[i]).path@),
{
    let mut i: usize = 0;
    while i < sources.len()
        invariant
            i <= sources.len(),
            forall|j: int| 0 <= j < i ==> !accepts(lang@.extensions, (#[trigger] sources[j]).path@),
        decreases sources.len() - i,
    {
        if lang.matches(sources[i].path.as_str()) {
            return true;
        }
        i += 1;
    }
    false
}

/// Compiles the sources of C, then those of C++, with the same object and
/// include directories.
fn compile_both(
    c: &LanguageBuilder,
    cpp: &LanguageBuilder,
    sources: &Vec<SourceUnit>,
    obj_dir: &str,
    include_dirs: &Vec<String>,
) -> (steps: Vec<CompileStep>)
    ensures
        step_views(steps@) == c@.steps(sources@, obj_dir@, views(include_dirs@)) + cpp@.steps(
            sources@,
            obj_dir@,
            views(include_dirs@),
        ),
{
    let mut steps = compile_files(c, sources, obj_dir, include_dirs);
    let mut more = compile_files(cpp, sources, obj_dir, include_dirs);
    let ghost first = step_views(steps@);
    let ghost second = step_views(more@);
    steps.append(&mut more);
    assert(step_views(steps@) == first + second);
    steps
}

/// The objects of `steps` followed by `archives`.
fn link_inputs(steps: &Vec<CompileStep>, archives: &Vec<String>) -> (inputs: Vec<String>)
    ensures
        views(inputs@) == object_paths(step_views(steps@)) + views(archives@),
{
    let mut inputs = object_files(steps);
    assert(views(inputs@) == object_paths(step_views(steps@)));
    let ghost objects = views(inputs@);
    let mut i: usize = 0;
    while i < archives.len()
        invariant
            i <= archives.len(),
            views(inputs@) == objects + views(archives@).take(i as int),
        decreases archives.len() - i,
    {
        let archive = archives[i].clone();
        proof {
            lemma_views_push(inputs@, archive);
            assert(views(archives@).take(i + 1) == views(archives@).take(i as int).push(archive@));
        }
        inputs.push(archive);
        i += 1;
    }
    assert(views(archives@).take(archives.len() as int) == views(archives@));
    inputs
}

/// Plans the build of the main project from its configuration, its
/// sources with their stamps, and the archives of its dependencies.
pub fn build(
    config: &Config,
    sources: &Vec<SourceUnit>,
    obj_dir: &str,
    output_dir: &str,
    dep_statics: &Vec<String>,
) -> (plan: BuildPlan)
    ensures
        plan@ == build_plan(config, sources@, obj_dir@, output_dir@, views(dep_statics@)),
{
    let c = describe(&CLang, config);
    let cpp = describe(&CppLang, config);
    let mut include_dirs: Vec<String> = Vec::new();
    include_dirs.push("deps/headers".to_owned());
    include_dirs.push("include".to_owned());
    assert(views(include_dirs@) == project_include_dirs());
    let compile = compile_both(&c, &cpp, sources, obj_dir, &include_dirs);
    let is_any_cpp = any_accepted(&cpp, sources);
    let linker = if is_any_cpp {
        CppLang.compiler(config)
    } else {
        CLang.compiler(config)
    };
    let link_flags = if is_any_cpp {
        CppLang.link_flags(&config.options)
    } else {
        CLang.link_flags(&config.options)
    };
    let plain = join_path(output_dir, config.project_name.as_str());
    let output = if config.is_library {
        replace_extension(plain.as_str(), "a")
    } else {
        plain
    };
    let inputs = link_inputs(&compile, dep_statics);
    let link = link_objects(
        linker.as_str(),
        &inputs,
        output.as_str(),
        &config.is_library,
        link_flags.as_str(),
    );
    BuildPlan { compile, link, output }
}

/// The directory of a dependency under the project.
pub open spec fn dep_root(name: Seq<char>) -> Seq<char> {
    "deps/"@ + name
}

/// Where the parts of a dependency lie.
#[derive(Debug)]
pub struct DepLayout {
    /// The headers that the dependency offers to others, if it has any.
    pub headers_from: String,
    /// Where those headers are gathered.
    pub headers_to: String,
    pub source_dir: String,
    pub obj_dir: String,
    /// The static library that the dependency is built into.
    pub library: String,
}

/// What a layout holds, as text.
pub struct DepLayoutView {
    pub headers_from: Seq<char>,
    pub headers_to: Seq<char>,
    pub source_dir: Seq<char>,
    pub obj_dir: Seq<char>,
    pub library: Seq<char>,
}

impl View for DepLayout {
    type V = DepLayoutView;

    open spec fn view(&self) -> DepLayoutView {
        DepLayoutView {
            headers_from: self.headers_from@,
            headers_to: self.headers_to@,
            source_dir: self.source_dir@,
            obj_dir: self.obj_dir@,
            library: self.library@,
        }
    }
}

/// The layout of the dependency of the given name.
pub open spec fn layout_of(name: Seq<char>) -> DepLayoutView {
    DepLayoutView {
        headers_from: join(dep_root(name), "external_headers"@),
        headers_to: join(headers_root(), name),
        source_dir: join(dep_root(name), "src"@),
        obj_dir: join(dep_root(name), "obj"@),
        library: join(dep_root(name), "lib"@ + name + ".a"@),
    }
}

/// The layout of the dependency of the given name.
pub fn dep_layout(name: &str) -> (r: DepLayout)
    ensures
        r@ == layout_of(name@),
{
    let mut root = "deps/".to_owned();
    root.append(name);
    let mut lib = "lib".to_owned();
    lib.append(name);
    lib.append(".a");
    DepLayout {
        headers_from: join_path(root.as_str(), "external_headers"),
        headers_to: join_path("deps/headers", name),
        source_dir: join_path(root.as_str(), "src"),
        obj_dir: join_path(root.as_str(), "obj"),
        library: join_path(root.as_str(), lib.as_str()),
    }
}

/// The plan of the build of one dependency.
#[derive(Debug)]
pub struct DepBuild {
    pub compile: Vec<CompileStep>,
    /// The archiver run that gathers the objects into the library.
    pub archive: Invocation,
    pub library: String,
}

/// What the plan of a dependency holds, as text.
pub struct DepBuildView {
    pub compile: Seq<CompileStepView>,
    pub archive: InvocationView,
    pub library: Seq<char>,
}

impl View for DepBuild {
    type V = DepBuildView;

    open spec fn view(&self) -> DepBuildView {
        DepBuildView {
            compile: step_views(self.compile@),
            archive: self.archive@,
            library: self.library@,
        }
    }
}

/// The build of a dependency: nothing where it has no sources; else its C
/// sources compiled with `gcc` and its C++ sources with `g++`, against the
/// gathered headers, and the objects archived into its library.
pub open spec fn dep_build_plan(name: Seq<char>, sources: Seq<SourceUnit>) -> Option<DepBuildView> {
    if sources.len() == 0 {
        None
    } else {
        let layout = layout_of(name);
        let c = described_plain(&CLang, "gcc"@);
        let cpp = described_plain(&CppLang, "g++"@);
        let compile = c.steps(sources, layout.obj_dir, seq![headers_root()]) + cpp.steps(
            sources,
            layout.obj_dir,
            seq![headers_root()],
        );
        Some(
            DepBuildView {
                compile,
                archive: link_invocation(
                    archiver(),
                    object_paths(compile),
                    layout.library,
                    true,
                    Seq::empty(),
                ),
                library: layout.library,
            },
        )
    }
}

/// Plans the build of the dependency of the given name from its sources
/// with their stamps.
pub fn build_dep(name: &str, sources: &Vec<SourceUnit>) -> (plan: Option<DepBuild>)
    ensures
        match plan {
            Some(p) => dep_build_plan(name@, sources@) == Some(p@),
            None => dep_build_plan(name@, sources@) is None,
        },
{
    if sources.len() == 0 {
        return None;
    }
    let layout = dep_layout(name);
    let c = describe_plain(&CLang, "gcc");
    let cpp = describe_plain(&CppLang, "g++");
    let mut include_dirs: Vec<String> = Vec::new();
    include_dirs.push("deps/headers".to_owned());
    assert(views(include_dirs@) == seq![headers_root()]);
    let compile = compile_both(&c, &cpp, sources, layout.obj_dir.as_str(), &include_dirs);
    let objects = object_files(&compile);
    assert(views(objects@) == object_paths(step_views(compile@)));
    let is_library = true;
    let archive = link_objects("ar", &objects, layout.library.as_str(), &is_library, "");
    Some(DepBuild { compile, archive, library: layout.library })
}

/// Whether `path` is a source that the tool builds: one of C or of C++.
pub fn is_source(path: &str) -> (r: bool)
    ensures
        r == (accepts(c_extensions(), path@) || accepts(cpp_extensions(), path@)),
{
    let c = describe_plain(&CLang, "gcc");
    let cpp = describe_plain(&CppLang, "g++");
    c.matches(path) || cpp.matches(path)
}

/// The routing law: a file is a source of C, of C++ or of neither, by its
/// extension and whatever the case of its letters; never of both.
pub proof fn lemma_routed_to_one_language(path: Seq<char>)
    ensures
        !(accepts(c_extensions(), path) && accepts(cpp_extensions(), path)),
        extension(path) is None ==> !accepts(c_extensions(), path) && !accepts(
            cpp_extensions(),
            path,
        ),
{
    reveal_strlit("c");
    reveal_strlit("cpp");
    reveal_strlit("cc");
    reveal_strlit("cxx");
    reveal_strlit("c++");
    if accepts(c_extensions(), path) && accepts(cpp_extensions(), path) {
        let e = extension(path)->0;
        let i = choose|i: int|
            0 <= i < c_extensions().len() && same_ignoring_ascii_case(e, #[trigger] c_extensions()[i]);
        let j = choose|j: int|
            0 <= j < cpp_extensions().len() && same_ignoring_ascii_case(
                e,
                #[trigger] cpp_extensions()[j],
            );
        assert(c_extensions()[i].len() == 1);
        assert(cpp_extensions()[j].len() >= 2);
    }
}

/// The link-driver law: with a C++ source among the sources of a project
/// that is no library, the C++ compiler links, with the C++ link flags.
pub proof fn lemma_cpp_source_selects_cpp_driver(
    config: &Config,
    sources: Seq<SourceUnit>,
    obj_dir: Seq<char>,
    output_dir: Seq<char>,
    dep_statics: Seq<Seq<char>>,
)
    requires
        uses_cpp(sources),
        !config.is_library,
    ensures
        ({
            let plan = build_plan(config, sources, obj_dir, output_dir, dep_statics);
            &&& plan.link.program == CppLang.spec_compiler(config)
            &&& plan.link.args == link_args(
                object_paths(plan.compile) + dep_statics,
                plan.output,
                CppLang.spec_link_flags(&config.options),
            )
        }),
{
}

} // verus!
