//! The incremental compiler: which sources of a language are stale, and the
//! command line that compiles each of them.

use vstd::prelude::*;
use vstd::string::*;
use crate::paths::{extension, file_name, file_stem, join, join_path, path_extension, path_stem};
use crate::text::{
    eq_ignore_ascii_case, lemma_views_push, same_ignoring_ascii_case, split_whitespace, views, words,
};

verus! {

/// How one language's sources become objects.
#[derive(Debug, Clone)]
pub struct LanguageBuilder {
    pub name: String,
    pub extensions: Vec<String>,
    pub compiler: String,
    /// Put in front of each include directory, as in `-I`.
    pub include_flag: Option<String>,
    pub compile_flags: String,
}

/// What a descriptor holds, as text.
pub struct LanguageView {
    pub name: Seq<char>,
    pub extensions: Seq<Seq<char>>,
    pub compiler: Seq<char>,
    pub include_flag: Option<Seq<char>>,
    pub compile_flags: Seq<char>,
}

impl View for LanguageBuilder {
    type V = LanguageView;

    open spec fn view(&self) -> LanguageView {
        LanguageView {
            name: self.name@,
            extensions: views(self.extensions@),
            compiler: self.compiler@,
            include_flag: match self.include_flag {
                Some(f) => Some(f@),
                None => None,
            },
            compile_flags: self.compile_flags@,
        }
    }
}

/// What the file system says of a file's last modification, in nanoseconds
/// since the epoch.
#[derive(Debug, Clone, Copy)]
pub enum FileStamp {
    Missing,
    Unreadable,
    Modified(u128),
}

/// A source file with its own stamp and the stamp of the object file that it
/// compiles to.
#[derive(Debug, Clone)]
pub struct SourceUnit {
    pub path: String,
    pub modified: FileStamp,
    pub object: FileStamp,
}

/// A program to run, with its arguments.
#[derive(Debug, Clone)]
pub struct Invocation {
    pub program: String,
    pub args: Vec<String>,
}

/// What an invocation holds, as text.
pub struct InvocationView {
    pub program: Seq<char>,
    pub args: Seq<Seq<char>>,
}

impl View for Invocation {
    type V = InvocationView;

    open spec fn view(&self) -> InvocationView {
        InvocationView { program: self.program@, args: views(self.args@) }
    }
}

/// One source of a batch: its object file, and the compiler run that
/// produces it unless the object is up to date.
#[derive(Debug, Clone)]
pub struct CompileStep {
    pub source: String,
    pub object: String,
    pub command: Option<Invocation>,
}

/// What a step holds, as text.
pub struct CompileStepView {
    pub source: Seq<char>,
    pub object: Seq<char>,
    pub command: Option<InvocationView>,
}

impl View for CompileStep {
    type V = CompileStepView;

    open spec fn view(&self) -> CompileStepView {
        CompileStepView {
            source: self.source@,
            object: self.object@,
            command: match self.command {
                Some(c) => Some(c@),
                None => None,
            },
        }
    }
}

/// The views of a sequence of steps.
pub open spec fn step_views(steps: Seq<CompileStep>) -> Seq<CompileStepView> {
    Seq::new(steps.len(), |i: int| steps[i]@)
}

/// Whether the extension of `path` is one of `extensions`, whatever the case
/// of its ASCII letters.
pub open spec fn accepts(extensions: Seq<Seq<char>>, path: Seq<char>) -> bool {
    match extension(path) {
        Some(e) => exists|i: int|
            0 <= i < extensions.len() && same_ignoring_ascii_case(e, #[trigger] extensions[i]),
        None => false,
    }
}

/// The staleness rule: an object is built again unless both stamps can be
/// read and the source is no newer than the object.
pub open spec fn rebuild_required(source: FileStamp, object: FileStamp) -> bool {
    match (source, object) {
        (FileStamp::Modified(s), FileStamp::Modified(o)) => s > o,
        _ => true,
    }
}

/// The name of the object file of a source: stem, extension and `o`, so that
/// `a.c` and `a.cpp` do not collide.
pub open spec fn object_name(source: Seq<char>) -> Seq<char> {
    let stem = if file_name(source).len() == 0 {
        "unknown"@
    } else {
        file_stem(source)
    };
    let ext = match extension(source) {
        Some(e) => e,
        None => Seq::empty(),
    };
    stem + "."@ + ext + ".o"@
}

/// Where the object file of a source lies.
pub open spec fn object_path(obj_dir: Seq<char>, source: Seq<char>) -> Seq<char> {
    join(obj_dir, object_name(source))
}

/// One argument for each include directory: the flag with the directory
/// behind it. Without a flag there are none.
pub open spec fn include_args(flag: Option<Seq<char>>, dirs: Seq<Seq<char>>) -> Seq<Seq<char>> {
    match flag {
        Some(f) => Seq::new(dirs.len(), |i: int| f + dirs[i]),
        None => Seq::empty(),
    }
}

impl LanguageView {
    /// Whether `path` is a source of this language.
    pub open spec fn accepts(&self, path: Seq<char>) -> bool {
        accepts(self.extensions, path)
    }

    /// The arguments that compile `source` into `object`.
    pub open spec fn compile_args(
        &self,
        source: Seq<char>,
        object: Seq<char>,
        include_dirs: Seq<Seq<char>>,
    ) -> Seq<Seq<char>> {
        include_args(self.include_flag, include_dirs) + words(self.compile_flags) + seq![
            "-c"@,
            source,
            "-o"@,
            object,
        ]
    }

    /// The step planned for one source of this language.
    pub open spec fn step(
        &self,
        unit: SourceUnit,
        obj_dir: Seq<char>,
        include_dirs: Seq<Seq<char>>,
    ) -> CompileStepView {
        let object = object_path(obj_dir, unit.path@);
        CompileStepView {
            source: unit.path@,
            object,
            command: if rebuild_required(unit.modified, unit.object) {
                Some(
                    InvocationView {
                        program: self.compiler,
                        args: self.compile_args(unit.path@, object, include_dirs),
                    },
                )
            } else {
                None
            },
        }
    }

    /// The steps planned for a batch: one for each source of this language,
    /// in the order of the batch.
    pub open spec fn steps(
        &self,
        units: Seq<SourceUnit>,
        obj_dir: Seq<char>,
        include_dirs: Seq<Seq<char>>,
    ) -> Seq<CompileStepView> {
        units.filter(|u: SourceUnit| self.accepts(u.path@)).map_values(
            |u: SourceUnit| self.step(u, obj_dir, include_dirs),
        )
    }

}

impl LanguageBuilder {
    /// Whether `path` is a source of this language.
    pub fn matches(&self, path: &str) -> (r: bool)
        ensures
            r == self@.accepts(path@),
    {
        match path_extension(path) {
            Some(e) => {
                let mut i: usize = 0;
                while i < self.extensions.len()
                    invariant
                        i <= self.extensions.len(),
                        extension(path@) == Some(e@),
                        forall|j: int|
                            0 <= j < i ==> !same_ignoring_ascii_case(
                                e@,
                                #[trigger] views(self.extensions@)[j],
                            ),
                    decreases self.extensions.len() - i,
                {
                    if eq_ignore_ascii_case(e.as_str(), self.extensions[i].as_str()) {
                        assert(same_ignoring_ascii_case(e@, views(self.extensions@)[i as int]));
                        return true;
                    }
                    i += 1;
                }
                false
            },
            None => false,
        }
    }

    /// The compiler run that turns `source` into `object`.
    pub fn compile_command(&self, source: &str, object: &str, include_dirs: &Vec<String>) -> (r:
        Invocation)
        ensures
            r@.program == self@.compiler,
            r@.args == self@.compile_args(source@, object@, views(include_dirs@)),
    {
        let mut args: Vec<String> = Vec::new();
        match &self.include_flag {
            Some(flag) => {
                let mut i: usize = 0;
                while i < include_dirs.len()
                    invariant
                        i <= include_dirs.len(),
                        self.include_flag == Some(*flag),
                        views(args@) == include_args(self@.include_flag, views(include_dirs@)).take(
                            i as int,
                        ),
                    decreases include_dirs.len() - i,
                {
                    let mut arg = flag.clone();
                    arg.append(include_dirs[i].as_str());
                    proof {
                        lemma_views_push(args@, arg);
                        let all = include_args(self@.include_flag, views(include_dirs@));
                        assert(all.take(i + 1) == all.take(i as int).push(arg@));
                    }
                    args.push(arg);
                    i += 1;
                }
            },
            None => {},
        }
        assert(views(args@) == include_args(self@.include_flag, views(include_dirs@)));
        let flags = split_whitespace(self.compile_flags.as_str());
        let ghost before = views(args@);
        let mut k: usize = 0;
        while k < flags.len()
            invariant
                k <= flags.len(),
                views(args@) == before + views(flags@).take(k as int),
            decreases flags.len() - k,
        {
            let flag = flags[k].clone();
            proof {
                lemma_views_push(args@, flag);
                assert(views(flags@).take(k + 1) == views(flags@).take(k as int).push(flag@));
            }
            args.push(flag);
            k += 1;
        }
        assert(views(flags@).take(flags.len() as int) == views(flags@));
        let ghost middle = views(args@);
        args.push("-c".to_owned());
        args.push(source.to_owned());
        args.push("-o".to_owned());
        args.push(object.to_owned());
        assert(views(args@) == middle + seq!["-c"@, source@, "-o"@, object@]);
        Invocation { program: self.compiler.clone(), args }
    }
}

/// Whether a source has to be compiled again.
pub fn is_rebuild_required(source: &FileStamp, object: &FileStamp) -> (r: bool)
    ensures
        r == rebuild_required(*source, *object),
{
    match (source, object) {
        (FileStamp::Modified(s), FileStamp::Modified(o)) => *s > *o,
        _ => true,
    }
}

/// The path of the object file that `source` compiles to under `obj_dir`.
pub fn object_file(obj_dir: &str, source: &str) -> (r: String)
    ensures
        r@ == object_path(obj_dir@, source@),
{
    let stem = path_stem(source);
    let mut name = if stem.as_str().unicode_len() == 0 {
        proof {
            assert(file_name(source@).len() == 0) by {
                if file_name(source@).len() > 0 {
                    crate::paths::lemma_last_index(file_name(source@), '.');
                }
            }
        }
        "unknown".to_owned()
    } else {
        proof {
            assert(file_name(source@).len() > 0) by {
                if file_name(source@).len() == 0 {
                    crate::paths::lemma_last_index(file_name(source@), '.');
                }
            }
        }
        stem
    };
    name.append(".");
    match path_extension(source) {
        Some(e) => {
            name.append(e.as_str());
        },
        None => {
            assert(name@ + Seq::<char>::empty() == name@);
        },
    }
    name.append(".o");
    join_path(obj_dir, name.as_str())
}

/// Plans the compilation of a batch of sources in one language: each source
/// of the language gets a step, the others are passed over.
pub fn compile_files(
    lang: &LanguageBuilder,
    src_files: &Vec<SourceUnit>,
    obj_dir: &str,
    include_dirs: &Vec<String>,
) -> (steps: Vec<CompileStep>)
    ensures
        step_views(steps@) == lang@.steps(src_files@, obj_dir@, views(include_dirs@)),
{
    let mut steps: Vec<CompileStep> = Vec::new();
    let ghost pred = |u: SourceUnit| lang@.accepts(u.path@);
    let ghost f = |u: SourceUnit| lang@.step(u, obj_dir@, views(include_dirs@));
    let mut i: usize = 0;
    proof {
        reveal(Seq::filter);
        assert(src_files@.take(0).len() == 0);
    }
    while i < src_files.len()
        invariant
            i <= src_files.len(),
            pred == |u: SourceUnit| lang@.accepts(u.path@),
            f == |u: SourceUnit| lang@.step(u, obj_dir@, views(include_dirs@)),
            step_views(steps@) == src_files@.take(i as int).filter(pred).map_values(f),
        decreases src_files.len() - i,
    {
        let unit = &src_files[i];
        proof {
            reveal(Seq::filter);
            assert(src_files@.take(i + 1).drop_last() == src_files@.take(i as int));
            assert(src_files@.take(i + 1).last() == *unit);
        }
        if lang.matches(unit.path.as_str()) {
            let object = object_file(obj_dir, unit.path.as_str());
            let command = if is_rebuild_required(&unit.modified, &unit.object) {
                Some(lang.compile_command(unit.path.as_str(), object.as_str(), include_dirs))
            } else {
                None
            };
            let ghost before = step_views(steps@);
            let step = CompileStep { source: unit.path.clone(), object, command };
            assert(step@ == f(*unit));
            steps.push(step);
            assert(step_views(steps@) == before.push(f(*unit)));
            assert(src_files@.take(i as int).filter(pred).push(*unit).map_values(f)
                == src_files@.take(i as int).filter(pred).map_values(f).push(f(*unit)));
        }
        i += 1;
    }
    assert(src_files@.take(src_files.len() as int) == src_files@);
    steps
}

/// The object files of a batch, built or cached, in the order of the steps.
pub fn object_files(steps: &Vec<CompileStep>) -> (objects: Vec<String>)
    ensures
        views(objects@) == Seq::new(steps.len() as nat, |i: int| steps[i]@.object),
{
    let mut objects: Vec<String> = Vec::new();
    let mut i: usize = 0;
    while i < steps.len()
        invariant
            i <= steps.len(),
            views(objects@) == Seq::new(i as nat, |j: int| steps[j]@.object),
        decreases steps.len() - i,
    {
        let object = steps[i].object.clone();
        proof {
            lemma_views_push(objects@, object);
            assert(Seq::new((i + 1) as nat, |j: int| steps[j]@.object) == Seq::new(
                i as nat,
                |j: int| steps[j]@.object,
            ).push(object@));
        }
        objects.push(object);
        i += 1;
    }
    objects
}

/// The staleness law. A source whose object is missing is compiled. Where
/// the object exists and both stamps can be read, the source is compiled if
/// it is strictly newer than the object, and passed over otherwise. Stamps
/// that cannot be read are left out: with one of those the source is
/// compiled in any case.
pub proof fn lemma_staleness(source: FileStamp, object: FileStamp)
    requires
        source is Modified,
        object is Missing || object is Modified,
    ensures
        object is Missing ==> rebuild_required(source, object),
        object is Modified ==> (rebuild_required(source, object) <==> source->Modified_0
            > object->Modified_0),
{
}

/// When no source of the batch is stale, the plan runs the compiler for
/// none of them.
pub proof fn lemma_fresh_batch_compiles_nothing(
    lang: LanguageView,
    units: Seq<SourceUnit>,
    obj_dir: Seq<char>,
    include_dirs: Seq<Seq<char>>,
)
    requires
        forall|i: int|
            0 <= i < units.len() ==> !rebuild_required(
                (#[trigger] units[i]).modified,
                units[i].object,
            ),
    ensures
        forall|k: int|
            0 <= k < lang.steps(units, obj_dir, include_dirs).len() ==> (#[trigger] lang.steps(
                units,
                obj_dir,
                include_dirs,
            )[k]).command is None,
{
    let pred = |u: SourceUnit| lang.accepts(u.path@);
    let kept = units.filter(pred);
    assert forall|k: int| 0 <= k < lang.steps(units, obj_dir, include_dirs).len() implies (
    #[trigger] lang.steps(units, obj_dir, include_dirs)[k]).command is None by {
        assert(lang.steps(units, obj_dir, include_dirs)[k] == lang.step(
            kept[k],
            obj_dir,
            include_dirs,
        ));
        assert(kept.contains(kept[k]));
        units.lemma_filter_contains_rev(pred, kept[k]);
    }
}

} // verus!
