//! Fetching a dependency: where its cached clone lies, and the steps that
//! bring its files under the project's dependency directory.

use vstd::prelude::*;
use vstd::string::*;
use crate::depman::graph::{Dep, DepSource, DepSourceView, DepView};
use crate::paths::{join, join_path};

verus! {

/// The MD5 digest of the UTF-8 bytes of a text, as 32 lower-case
/// hexadecimal digits.
pub uninterp spec fn md5_hex(text: Seq<char>) -> Seq<char>;

/// `md5::compute` on the bytes of `text`, formatted with the digest's
/// `LowerHex`, which writes each of the sixteen bytes as two digits. The
/// digest depends on the bytes alone; it is named, not computed here.
#[verifier::external_body]
fn md5_hex_digest(text: &str) -> (r: String)
    ensures
        r@ == md5_hex(text@),
{
    format!("{:x}", md5::compute(text))
}

/// `shellexpand::tilde`: a leading `~` is replaced by the home directory of
/// the user where one is known; otherwise the text comes back as it is.
/// Which directory that is depends on the environment.
#[verifier::external_body]
fn expand_tilde(path: &str) -> (r: String)
    ensures
        r@ == path@ || (path@.len() > 0 && path@[0] == '~' && exists|home: Seq<char>|
            r@ == #[trigger] (home + path@.skip(1))),
{
    shellexpand::tilde(path).to_string()
}

/// Where clones are cached, before the home directory is filled in.
pub open spec fn package_cache_dir() -> Seq<char> {
    "~/.seastar/package_cache/git_clones"@
}

/// The directory under which clones are cached for all projects of the
/// user: `package_cache_dir` under the user's home directory, or unexpanded
/// where the home directory is not known.
pub fn default_cache_root() -> (r: String)
    ensures
        r@ == package_cache_dir() || exists|home: Seq<char>|
            r@ == #[trigger] (home + package_cache_dir().skip(1)),
{
    expand_tilde("~/.seastar/package_cache/git_clones")
}

/// The name of the cache entry of a repository: the digest of its URL, and
/// the tag behind a hyphen where one is asked for.
pub open spec fn cache_key(repo: Seq<char>, tag: Option<Seq<char>>) -> Seq<char> {
    match tag {
        Some(t) => md5_hex(repo) + "-"@ + t,
        None => md5_hex(repo),
    }
}

/// Where the cached clone of a repository lies under `cache_root`.
pub open spec fn cached_package_path(
    cache_root: Seq<char>,
    repo: Seq<char>,
    tag: Option<Seq<char>>,
) -> Seq<char> {
    join(cache_root, cache_key(repo, tag))
}

/// Where the cached clone of a repository lies under `cache_root`.
pub fn get_cached_package_path(cache_root: &str, repo: &str, tag: Option<&str>) -> (r: String)
    ensures
        r@ == cached_package_path(
            cache_root@,
            repo@,
            match tag {
                Some(t) => Some(t@),
                None => None,
            },
        ),
{
    let mut name = md5_hex_digest(repo);
    match tag {
        Some(t) => {
            name.append("-");
            name.append(t);
        },
        None => {},
    }
    join_path(cache_root, name.as_str())
}

/// One action of a fetch.
#[derive(Debug)]
pub enum FetchStep {
    /// Clone the whole repository into the cache.
    Clone { repo: String, into: String },
    /// In the clone at `repository`: resolve `tag_ref` to a commit, make
    /// `branch` point at it, and switch the working tree to `head`.
    CheckoutTag { repository: String, tag_ref: String, branch: String, head: String },
    /// Make sure the directory exists.
    CreateDir { path: String },
    /// Copy the contents of `from` into `to`, directories included.
    CopyDir { from: String, to: String },
}

/// What a step holds, as text.
pub enum FetchStepView {
    Clone { repo: Seq<char>, into: Seq<char> },
    CheckoutTag { repository: Seq<char>, tag_ref: Seq<char>, branch: Seq<char>, head: Seq<char> },
    CreateDir { path: Seq<char> },
    CopyDir { from: Seq<char>, to: Seq<char> },
}

impl View for FetchStep {
    type V = FetchStepView;

    open spec fn view(&self) -> FetchStepView {
        match self {
            FetchStep::Clone { repo, into } => FetchStepView::Clone { repo: repo@, into: into@ },
            FetchStep::CheckoutTag { repository, tag_ref, branch, head } => FetchStepView::CheckoutTag {
                repository: repository@,
                tag_ref: tag_ref@,
                branch: branch@,
                head: head@,
            },
            FetchStep::CreateDir { path } => FetchStepView::CreateDir { path: path@ },
            FetchStep::CopyDir { from, to } => FetchStepView::CopyDir { from: from@, to: to@ },
        }
    }
}

/// The views of a sequence of steps.
pub open spec fn fetch_views(steps: Seq<FetchStep>) -> Seq<FetchStepView> {
    Seq::new(steps.len(), |i: int| steps[i]@)
}

/// What a failed step means for the build.
#[derive(Debug, Clone, Copy, PartialEq, Eq, Structural)]
pub enum OnFailure {
    /// Log it, leave the rest of this fetch undone, and go on: what is
    /// missing shows when the dependency is compiled or linked.
    Abandon,
    /// Stop the build.
    Fatal,
}

impl FetchStepView {
    /// Failing to clone, to check out a tag or to copy is no reason to
    /// stop; failing to create a directory is.
    pub open spec fn on_failure(&self) -> OnFailure {
        match self {
            FetchStepView::CreateDir { .. } => OnFailure::Fatal,
            _ => OnFailure::Abandon,
        }
    }
}

impl FetchStep {
    /// What to do when this step fails.
    pub fn on_failure(&self) -> (r: OnFailure)
        ensures
            r == self@.on_failure(),
    {
        match self {
            FetchStep::CreateDir { .. } => OnFailure::Fatal,
            _ => OnFailure::Abandon,
        }
    }
}

/// The steps that bring a tag into the working tree of a fresh clone.
pub open spec fn checkout_of(repository: Seq<char>, tag: Seq<char>) -> FetchStepView {
    FetchStepView::CheckoutTag {
        repository,
        tag_ref: "refs/tags/"@ + tag,
        branch: "seastar/"@ + tag,
        head: "refs/heads/seastar/"@ + tag,
    }
}

/// The steps of fetching `dep` into its directory under `dep_dir`.
///
/// A repository is cloned into the cache, and its tag checked out, only
/// where the cache holds no entry for it (`cached` is false); a cached
/// clone is used as it is. Then the clone is copied. A local path is copied
/// straight away.
pub open spec fn fetch_steps(
    dep: DepView,
    dep_dir: Seq<char>,
    cache_root: Seq<char>,
    cached: bool,
) -> Seq<FetchStepView> {
    let dst = join(dep_dir, dep.name);
    match dep.source {
        DepSourceView::Git { repo, tag } => {
            let cache = cached_package_path(cache_root, repo, tag);
            let clone = if cached {
                Seq::empty()
            } else {
                seq![FetchStepView::Clone { repo, into: cache }] + match tag {
                    Some(t) => seq![checkout_of(cache, t)],
                    None => Seq::empty(),
                }
            };
            clone + seq![
                FetchStepView::CreateDir { path: dst },
                FetchStepView::CopyDir { from: cache, to: dst },
            ]
        },
        DepSourceView::Path(path) => seq![FetchStepView::CopyDir { from: path, to: dst }],
    }
}

fn prefixed(prefix: &str, text: &str) -> (r: String)
    ensures
        r@ == prefix@ + text@,
{
    let mut r = prefix.to_owned();
    r.append(text);
    r
}

/// Plans the fetch of `dep` into its directory under `dep_dir`. `cached`
/// says whether the cache under `cache_root` holds an entry for it already.
pub fn fetch(dep: &Dep, dep_dir: &str, cache_root: &str, cached: bool) -> (steps: Vec<FetchStep>)
    ensures
        fetch_views(steps@) == fetch_steps(dep@, dep_dir@, cache_root@, cached),
{
    let dst = join_path(dep_dir, dep.name.as_str());
    let mut steps: Vec<FetchStep> = Vec::new();
    match &dep.source {
        DepSource::Git { repo, tag } => {
            let cache = match tag {
                Some(t) => get_cached_package_path(cache_root, repo.as_str(), Some(t.as_str())),
                None => get_cached_package_path(cache_root, repo.as_str(), None),
            };
            if !cached {
                steps.push(FetchStep::Clone { repo: repo.clone(), into: cache.clone() });
                match tag {
                    Some(t) => {
                        steps.push(
                            FetchStep::CheckoutTag {
                                repository: cache.clone(),
                                tag_ref: prefixed("refs/tags/", t.as_str()),
                                branch: prefixed("seastar/", t.as_str()),
                                head: prefixed("refs/heads/seastar/", t.as_str()),
                            },
                        );
                    },
                    None => {},
                }
            }
            steps.push(FetchStep::CreateDir { path: dst.clone() });
            steps.push(FetchStep::CopyDir { from: cache, to: dst });
            assert(fetch_views(steps@) == fetch_steps(dep@, dep_dir@, cache_root@, cached));
        },
        DepSource::Path(path) => {
            steps.push(FetchStep::CopyDir { from: path.clone(), to: dst });
            assert(fetch_views(steps@) == fetch_steps(dep@, dep_dir@, cache_root@, cached));
        },
    }
    steps
}

} // verus!
