//! The linker: the command line that archives objects into a static
//! library, or links them into an executable with its static archives
//! wrapped in one link group.

use vstd::prelude::*;
use vstd::string::*;
use crate::builder::compilation::{Invocation, InvocationView};
use crate::paths::{is_archive, path_is_archive};
use crate::text::{lemma_views_push, split_whitespace, views, words};

verus! {

/// The archiver that builds static libraries.
pub open spec fn archiver() -> Seq<char> {
    "ar"@
}

/// The marker that opens a link group.
pub open spec fn start_group() -> Seq<char> {
    "-Wl,--start-group"@
}

/// The marker that closes a link group.
pub open spec fn end_group() -> Seq<char> {
    "-Wl,--end-group"@
}

/// Index of the first static archive among `inputs`, or their number where
/// there is none.
pub open spec fn first_archive(inputs: Seq<Seq<char>>) -> int
    decreases inputs.len(),
{
    if inputs.len() == 0 || is_archive(inputs[0]) {
        0
    } else {
        1 + first_archive(inputs.skip(1))
    }
}

/// Whether some input is a static archive.
pub open spec fn has_archive(inputs: Seq<Seq<char>>) -> bool {
    exists|i: int| 0 <= i < inputs.len() && is_archive(#[trigger] inputs[i])
}

/// The inputs with the group markers: one before the first archive, one
/// behind the last input. Without an archive the inputs stay as they are.
pub open spec fn grouped(inputs: Seq<Seq<char>>) -> Seq<Seq<char>> {
    let k = first_archive(inputs);
    if k < inputs.len() {
        inputs.take(k) + seq![start_group()] + inputs.skip(k) + seq![end_group()]
    } else {
        inputs
    }
}

/// The arguments of a link into an executable.
pub open spec fn link_args(inputs: Seq<Seq<char>>, output: Seq<char>, link_flags: Seq<char>) -> Seq<
    Seq<char>,
> {
    grouped(inputs) + words(link_flags) + seq!["-o"@, output]
}

/// The arguments of the archiver: insert or replace, create the archive if
/// absent, write the symbol index.
pub open spec fn archive_args(inputs: Seq<Seq<char>>, output: Seq<char>) -> Seq<Seq<char>> {
    seq!["rcs"@, output] + inputs
}

/// The tool run that produces `output` from `inputs`.
pub open spec fn link_invocation(
    compiler: Seq<char>,
    inputs: Seq<Seq<char>>,
    output: Seq<char>,
    is_library: bool,
    link_flags: Seq<char>,
) -> InvocationView {
    if is_library {
        InvocationView { program: archiver(), args: archive_args(inputs, output) }
    } else {
        InvocationView { program: compiler, args: link_args(inputs, output, link_flags) }
    }
}

/// No element is a group marker.
pub open spec fn marker_free(args: Seq<Seq<char>>) -> bool {
    forall|i: int|
        0 <= i < args.len() ==> #[trigger] args[i] != start_group() && args[i] != end_group()
}

/// `first_archive` is an archive with none before it, or the number of
/// inputs.
pub proof fn lemma_first_archive(inputs: Seq<Seq<char>>)
    ensures
        0 <= first_archive(inputs) <= inputs.len(),
        forall|j: int| 0 <= j < first_archive(inputs) ==> !is_archive(#[trigger] inputs[j]),
        first_archive(inputs) < inputs.len() ==> is_archive(inputs[first_archive(inputs)]),
        has_archive(inputs) <==> first_archive(inputs) < inputs.len(),
    decreases inputs.len(),
{
    if inputs.len() == 0 || is_archive(inputs[0]) {
    } else {
        let rest = inputs.skip(1);
        lemma_first_archive(rest);
        let k = first_archive(inputs);
        assert forall|j: int| 0 <= j < k implies !is_archive(#[trigger] inputs[j]) by {
            if j > 0 {
                assert(inputs[j] == rest[j - 1]);
            }
        }
        if k < inputs.len() {
            assert(inputs[k] == rest[k - 1]);
        }
    }
    let k = first_archive(inputs);
    if has_archive(inputs) {
        let i = choose|i: int| 0 <= i < inputs.len() && is_archive(#[trigger] inputs[i]);
        assert(k <= i);
    }
}

/// An index that holds an archive with none before it, or the number of
/// inputs where none is an archive, is `first_archive`.
pub proof fn lemma_first_archive_is(inputs: Seq<Seq<char>>, k: int)
    requires
        0 <= k <= inputs.len(),
        forall|j: int| 0 <= j < k ==> !is_archive(#[trigger] inputs[j]),
        k < inputs.len() ==> is_archive(inputs[k]),
    ensures
        first_archive(inputs) == k,
{
    lemma_first_archive(inputs);
    let f = first_archive(inputs);
    if f < k {
        assert(!is_archive(inputs[f]));
    } else if k < f {
        assert(!is_archive(inputs[k]));
    }
}

/// Plans the tool run that produces `output`: the archiver over `objects`
/// for a library, else `compiler` as link driver over the grouped objects,
/// the link flags and the output.
pub fn link_objects(
    compiler: &str,
    objects: &Vec<String>,
    output: &str,
    is_library: &bool,
    link_flags: &str,
) -> (r: Invocation)
    ensures
        r@ == link_invocation(compiler@, views(objects@), output@, *is_library, link_flags@),
{
    let ghost inputs = views(objects@);
    let mut args: Vec<String> = Vec::new();
    if *is_library {
        args.push("rcs".to_owned());
        args.push(output.to_owned());
        let ghost head = views(args@);
        assert(head == seq!["rcs"@, output@]);
        let mut i: usize = 0;
        while i < objects.len()
            invariant
                i <= objects.len(),
                inputs == views(objects@),
                views(args@) == head + inputs.take(i as int),
            decreases objects.len() - i,
        {
            let object = objects[i].clone();
            proof {
                lemma_views_push(args@, object);
                assert(inputs.take(i + 1) == inputs.take(i as int).push(object@));
            }
            args.push(object);
            i += 1;
        }
        assert(inputs.take(objects.len() as int) == inputs);
        return Invocation { program: "ar".to_owned(), args };
    }
    let mut did_see_lib = false;
    let mut i: usize = 0;
    while i < objects.len()
        invariant
            i <= objects.len(),
            inputs == views(objects@),
            !did_see_lib ==> views(args@) == inputs.take(i as int) && forall|j: int|
                0 <= j < i ==> !is_archive(#[trigger] inputs[j]),
            did_see_lib ==> first_archive(inputs) < i && views(args@) == inputs.take(
                first_archive(inputs),
            ) + seq![start_group()] + inputs.subrange(first_archive(inputs), i as int),
        decreases objects.len() - i,
    {
        let object = objects[i].clone();
        let is_a = path_is_archive(object.as_str());
        if is_a && !did_see_lib {
            let marker = "-Wl,--start-group".to_owned();
            proof {
                lemma_first_archive_is(inputs, i as int);
                lemma_views_push(args@, marker);
            }
            args.push(marker);
            did_see_lib = true;
            assert(inputs.subrange(i as int, i as int) == Seq::<Seq<char>>::empty());
        }
        proof {
            lemma_views_push(args@, object);
            if did_see_lib {
                let k = first_archive(inputs);
                lemma_first_archive(inputs);
                assert(inputs.subrange(k, i + 1) == inputs.subrange(k, i as int).push(object@));
            } else {
                assert(inputs.take(i + 1) == inputs.take(i as int).push(object@));
            }
        }
        args.push(object);
        i += 1;
    }
    proof {
        assert(inputs.take(objects.len() as int) == inputs);
        if did_see_lib {
            lemma_first_archive(inputs);
            assert(inputs.subrange(first_archive(inputs), objects.len() as int) == inputs.skip(
                first_archive(inputs),
            ));
        } else {
            lemma_first_archive_is(inputs, inputs.len() as int);
        }
    }
    if did_see_lib {
        let marker = "-Wl,--end-group".to_owned();
        proof {
            lemma_views_push(args@, marker);
        }
        args.push(marker);
    }
    assert(views(args@) == grouped(inputs));
    let flags = split_whitespace(link_flags);
    let ghost before = views(args@);
    let mut k: usize = 0;
    while k < flags.len()
        invariant
            k <= flags.len(),
            views(args@) == before + views(flags@).take(k as int),
        decreases flags.len() - k,
    {
        let flag = flags[k].clone();
        proof {
            lemma_views_push(args@, flag);
            assert(views(flags@).take(k + 1) == views(flags@).take(k as int).push(flag@));
        }
        args.push(flag);
        k += 1;
    }
    assert(views(flags@).take(flags.len() as int) == views(flags@));
    let ghost middle = views(args@);
    args.push("-o".to_owned());
    args.push(output.to_owned());
    assert(views(args@) == middle + seq!["-o"@, output@]);
    Invocation { program: compiler.to_owned(), args }
}

/// The link-group law. Where some input is a static archive, the arguments
/// of a link hold the start marker once, directly before the first archive,
/// and the end marker once, directly behind the last input; where none is,
/// they hold no marker. Inputs, flags and an output that are themselves
/// markers are left out.
pub proof fn lemma_link_group(inputs: Seq<Seq<char>>, output: Seq<char>, link_flags: Seq<char>)
    requires
        marker_free(inputs),
        marker_free(words(link_flags)),
        output != start_group(),
        output != end_group(),
    ensures
        ({
            let args = link_args(inputs, output, link_flags);
            let k = first_archive(inputs);
            let n = inputs.len() as int;
            if has_archive(inputs) {
                &&& 0 <= k < n
                &&& is_archive(inputs[k])
                &&& forall|j: int| 0 <= j < k ==> !is_archive(#[trigger] inputs[j])
                &&& args[k] == start_group()
                &&& args[k + 1] == inputs[k]
                &&& args[n] == inputs[n - 1]
                &&& args[n + 1] == end_group()
                &&& forall|i: int|
                    0 <= i < args.len() && i != k ==> #[trigger] args[i] != start_group()
                &&& forall|i: int|
                    0 <= i < args.len() && i != n + 1 ==> #[trigger] args[i] != end_group()
            } else {
                marker_free(args)
            }
        }),
{
    reveal_strlit("-Wl,--start-group");
    reveal_strlit("-Wl,--end-group");
    reveal_strlit("-o");
    lemma_first_archive(inputs);
    let args = link_args(inputs, output, link_flags);
    let k = first_archive(inputs);
    let n = inputs.len() as int;
    let w = words(link_flags);
    assert(start_group().len() == 17);
    assert(end_group().len() == 15);
    assert("-o"@.len() == 2);
    if has_archive(inputs) {
        assert forall|i: int| 0 <= i < args.len() implies (i != k ==> #[trigger] args[i]
            != start_group()) && (i != n + 1 ==> args[i] != end_group()) by {
            if i < k {
                assert(args[i] == inputs[i]);
            } else if i == k {
            } else if i <= n {
                assert(args[i] == inputs[i - 1]);
            } else if i == n + 1 {
            } else if i < n + 2 + w.len() {
                assert(args[i] == w[i - n - 2]);
            } else {
            }
        }
    } else {
        assert forall|i: int| 0 <= i < args.len() implies #[trigger] args[i] != start_group()
            && args[i] != end_group() by {
            if i < n {
                assert(args[i] == inputs[i]);
            } else if i < n + w.len() {
                assert(args[i] == w[i - n]);
            } else {
            }
        }
    }
}

} // verus!
