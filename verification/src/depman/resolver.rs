//! Resolution of a project's dependencies: what a configuration declares,
//! and the depth-first pass that fetches each name once and assembles the
//! graph.
//!
//! The pass does no fetching itself. It runs until it meets a dependency
//! whose name it has not seen, hands that dependency out, and goes on when
//! it is given the configuration that the fetched dependency carries.

use vstd::prelude::*;
use vstd::string::*;
use crate::depman::graph::{
    closed_under_dependencies, dep_views, distinct_names, has_name, lemma_map_of_push,
    lemma_map_of_same_nodes, map_of, Dep, DepGraph, DepNode, DepNodeView, DepSource,
    DepSourceView, DepView,
};
use crate::io::{Config, DepSpec};
use crate::text::{lemma_views_push, views};

verus! {

/// The text of an optional string.
pub open spec fn text_of(s: Option<String>) -> Option<Seq<char>> {
    match s {
        Some(t) => Some(t@),
        None => None,
    }
}

/// What one entry of a configuration declares: a bare URL is a repository
/// without a tag; a record gives a repository if it names one, then a local
/// path if it names one.
pub open spec fn declared(name: Seq<char>, spec: DepSpec) -> Seq<DepView> {
    match spec {
        DepSpec::Simple(url) => seq![
            DepView { name, source: DepSourceView::Git { repo: url@, tag: None } },
        ],
        DepSpec::Detailed { git, tag, path } => {
            let from_git = match git {
                Some(repo) => seq![
                    DepView { name, source: DepSourceView::Git { repo: repo@, tag: text_of(tag) } },
                ],
                None => Seq::empty(),
            };
            let from_path = match path {
                Some(p) => seq![DepView { name, source: DepSourceView::Path(p@) }],
                None => Seq::empty(),
            };
            from_git + from_path
        },
    }
}

/// What a list of entries declares, entry by entry.
pub open spec fn parsed(entries: Seq<(String, DepSpec)>) -> Seq<DepView>
    decreases entries.len(),
{
    if entries.len() == 0 {
        Seq::empty()
    } else {
        parsed(entries.drop_last()) + declared(entries.last().0@, entries.last().1)
    }
}

/// The names of a sequence of dependencies.
pub open spec fn names(deps: Seq<DepView>) -> Seq<Seq<char>> {
    Seq::new(deps.len(), |i: int| deps[i].name)
}

/// The node of a dependency that declares `children`.
pub open spec fn node_of(dep: DepView, children: Seq<DepView>) -> DepNodeView {
    DepNodeView { dep, dependencies: names(children) }
}

/// Index of the first dependency whose name is not among `fetched`, or the
/// length of `agenda` where every name is.
pub open spec fn first_unfetched(agenda: Seq<DepView>, fetched: Seq<Seq<char>>) -> int
    decreases agenda.len(),
{
    if agenda.len() == 0 || !fetched.contains(agenda[0].name) {
        0
    } else {
        1 + first_unfetched(agenda.skip(1), fetched)
    }
}

/// `first_unfetched` is behind fetched names only, and is none itself.
pub proof fn lemma_first_unfetched(agenda: Seq<DepView>, fetched: Seq<Seq<char>>)
    ensures
        0 <= first_unfetched(agenda, fetched) <= agenda.len(),
        forall|t: int|
            0 <= t < first_unfetched(agenda, fetched) ==> fetched.contains(
                (#[trigger] agenda[t]).name,
            ),
        first_unfetched(agenda, fetched) < agenda.len() ==> !fetched.contains(
            agenda[first_unfetched(agenda, fetched)].name,
        ),
    decreases agenda.len(),
{
    if agenda.len() == 0 || !fetched.contains(agenda[0].name) {
    } else {
        let rest = agenda.skip(1);
        lemma_first_unfetched(rest, fetched);
        let k = first_unfetched(agenda, fetched);
        assert forall|t: int| 0 <= t < k implies fetched.contains((#[trigger] agenda[t]).name) by {
            if t > 0 {
                assert(agenda[t] == rest[t - 1]);
            }
        }
        if k < agenda.len() {
            assert(agenda[k] == rest[k - 1]);
        }
    }
}

/// An index behind fetched names only that holds none is
/// `first_unfetched`.
pub proof fn lemma_first_unfetched_is(agenda: Seq<DepView>, fetched: Seq<Seq<char>>, k: int)
    requires
        0 <= k <= agenda.len(),
        forall|t: int| 0 <= t < k ==> fetched.contains((#[trigger] agenda[t]).name),
        k < agenda.len() ==> !fetched.contains(agenda[k].name),
    ensures
        first_unfetched(agenda, fetched) == k,
{
    lemma_first_unfetched(agenda, fetched);
    let f = first_unfetched(agenda, fetched);
    if f < k {
        assert(fetched.contains(agenda[f].name));
    } else if k < f {
        assert(fetched.contains(agenda[k].name));
    }
}

/// The dependencies that a configuration declares, in the order of its
/// entries.
pub fn parse_deps(config: &Config) -> (deps: Vec<Dep>)
    ensures
        dep_views(deps@) == parsed(config.dependencies@),
{
    let mut deps: Vec<Dep> = Vec::new();
    let entries = &config.dependencies;
    let mut i: usize = 0;
    assert(entries@.take(0) == Seq::<(String, DepSpec)>::empty());
    while i < entries.len()
        invariant
            i <= entries.len(),
            dep_views(deps@) == parsed(entries@.take(i as int)),
        decreases entries.len() - i,
    {
        let entry = &entries[i];
        let ghost before = dep_views(deps@);
        proof {
            assert(entries@.take(i + 1).drop_last() == entries@.take(i as int));
            assert(entries@.take(i + 1).last() == *entry);
        }
        match &entry.1 {
            DepSpec::Simple(url) => {
                let dep = Dep {
                    name: entry.0.clone(),
                    source: DepSource::Git { repo: url.clone(), tag: None },
                };
                deps.push(dep);
                assert(dep_views(deps@) == before + declared(entry.0@, entry.1));
            },
            DepSpec::Detailed { git, tag, path } => {
                let ghost mut middle = before;
                if let Some(repo) = git {
                    let dep = Dep {
                        name: entry.0.clone(),
                        source: DepSource::Git { repo: repo.clone(), tag: tag.clone() },
                    };
                    deps.push(dep);
                    proof {
                        middle = dep_views(deps@);
                        assert(middle == before + seq![dep@]);
                    }
                }
                if let Some(p) = path {
                    let dep = Dep { name: entry.0.clone(), source: DepSource::Path(p.clone()) };
                    deps.push(dep);
                    assert(dep_views(deps@) == middle + seq![dep@]);
                }
                assert(dep_views(deps@) == before + declared(entry.0@, entry.1));
            },
        }
        i += 1;
    }
    assert(entries@.take(entries.len() as int) == entries@);
    deps
}

/// Where the configuration of a fetched dependency lies.
pub open spec fn dep_config_path(dep_dir: Seq<char>, name: Seq<char>) -> Seq<char> {
    dep_dir + "/"@ + name + "/Seastar.toml"@
}

/// The path of the configuration file that the dependency carries, under
/// the project's dependency directory `dep_dir`.
pub fn dep_config_file(dep: &Dep, dep_dir: &str) -> (path: String)
    ensures
        path@ == dep_config_path(dep_dir@, dep@.name),
{
    let mut path = dep_dir.to_owned();
    path.append("/");
    path.append(dep.name.as_str());
    path.append("/Seastar.toml");
    path
}

/// A dependency whose children are being resolved. The bottom frame has no
/// owner: its children are the root dependencies.
struct Frame {
    owner: Option<Dep>,
    children: Vec<Dep>,
    next: usize,
}

/// The children of a frame that have not been looked at.
spec fn remaining(f: Frame) -> Seq<DepView> {
    dep_views(f.children@).skip(f.next as int)
}

/// All the dependencies still to be looked at, the innermost frame first.
spec fn agenda_of(stack: Seq<Frame>) -> Seq<DepView>
    decreases stack.len(),
{
    if stack.len() == 0 {
        Seq::empty()
    } else {
        remaining(stack.last()) + agenda_of(stack.drop_last())
    }
}

/// The node that an owned frame becomes.
spec fn frame_node(f: Frame) -> DepNodeView {
    node_of(f.owner->0@, dep_views(f.children@))
}

/// The nodes of the owned frames, outermost first.
spec fn open_nodes(stack: Seq<Frame>) -> Seq<DepNodeView> {
    Seq::new((stack.len() - 1) as nat, |i: int| frame_node(stack[i + 1]))
}

/// The core of a pass: the frames of the walk, the names seen, and the
/// nodes finished.
struct Resolver {
    stack: Vec<Frame>,
    visited: Vec<String>,
    graph: DepGraph,
}

impl Resolver {
    spec fn fetched(&self) -> Seq<Seq<char>> {
        views(self.visited@)
    }

    spec fn agenda(&self) -> Seq<DepView> {
        agenda_of(self.stack@)
    }

    spec fn all_nodes(&self) -> Seq<DepNodeView> {
        self.graph.entries() + open_nodes(self.stack@)
    }

    spec fn known(&self) -> Map<Seq<char>, DepNodeView> {
        map_of(self.all_nodes())
    }

    spec fn roots(&self) -> Seq<DepView> {
        dep_views(self.stack@[0].children@)
    }

    /// What holds between two steps; `pending` is the name handed out for
    /// fetching, if the pass waits for one.
    spec fn wf(&self, pending: Option<Seq<char>>) -> bool {
        &&& self.stack@.len() >= 1
        &&& self.stack@[0].owner is None
        &&& forall|i: int| 1 <= i < self.stack@.len() ==> (#[trigger] self.stack@[i]).owner is Some
        &&& forall|i: int|
            0 <= i < self.stack@.len() ==> (#[trigger] self.stack@[i]).next
                <= self.stack@[i].children@.len()
        &&& distinct_names(self.all_nodes())
        &&& self.fetched().no_duplicates()
        &&& forall|name: Seq<char>|
            self.fetched().contains(name) <==> has_name(self.all_nodes(), name) || pending == Some(
                name,
            )
        &&& pending matches Some(name) ==> !has_name(self.all_nodes(), name)
        &&& forall|i: int, k: int|
            0 <= i < self.graph.entries().len() && 0 <= k < self.graph.entries()[i].dependencies.len()
                ==> self.fetched().contains(#[trigger] self.graph.entries()[i].dependencies[k])
        &&& forall|i: int, j: int|
            0 <= i < self.stack@.len() && 0 <= j < self.stack@[i].next ==> self.fetched().contains(
                (#[trigger] self.stack@[i].children@[j])@.name,
            )
    }
}

/// A pass that waits for one dependency to be fetched.
pub struct PendingFetch {
    state: Resolver,
    dep: Dep,
}

/// How far a pass has come: a dependency to fetch, or the finished graph.
pub enum Resolution {
    Fetch(PendingFetch),
    Done(DepGraph),
}

impl PendingFetch {
    /// The dependency to fetch.
    pub closed spec fn dependency(&self) -> DepView {
        self.dep@
    }

    /// The names handed out for fetching so far, this one included, in the
    /// order in which they were handed out.
    pub closed spec fn fetched(&self) -> Seq<Seq<char>> {
        self.state.fetched()
    }

    /// The dependencies still to be looked at, in the order of the walk.
    pub closed spec fn agenda(&self) -> Seq<DepView> {
        self.state.agenda()
    }

    /// The nodes of the dependencies whose configuration has been handed in.
    pub closed spec fn known(&self) -> Map<Seq<char>, DepNodeView> {
        self.state.known()
    }

    /// The root dependencies of the pass.
    pub closed spec fn roots(&self) -> Seq<DepView> {
        self.state.roots()
    }

    /// What every waiting pass satisfies: no name was handed out twice,
    /// and the names handed out are those of the nodes known and the one
    /// waited for.
    pub closed spec fn wf(&self) -> bool {
        self.state.wf(Some(self.dep@.name))
    }

    /// The dependency to fetch.
    pub fn dep(&self) -> (d: &Dep)
        ensures
            d@ == self.dependency(),
    {
        &self.dep
    }
}

/// What comes of a pass that has handed out `fetched`, has `agenda` before
/// it and knows the nodes `known`: it skips the dependencies whose names
/// were handed out, and stops at the first other one; with none left, the
/// nodes it knows are the graph.
pub open spec fn follows(
    r: Resolution,
    roots: Seq<DepView>,
    fetched: Seq<Seq<char>>,
    agenda: Seq<DepView>,
    known: Map<Seq<char>, DepNodeView>,
) -> bool {
    let k = first_unfetched(agenda, fetched);
    match r {
        Resolution::Fetch(p) => {
            &&& p.wf()
            &&& k < agenda.len()
            &&& p.dependency() == agenda[k]
            &&& p.fetched() == fetched.push(agenda[k].name)
            &&& p.agenda() == agenda.skip(k + 1)
            &&& p.known() == known
            &&& p.roots() == roots
        },
        Resolution::Done(graph) => {
            &&& k == agenda.len()
            &&& graph.wf()
            &&& graph@ == known
            &&& closed_under_dependencies(graph.entries())
            &&& forall|name: Seq<char>| fetched.contains(name) <==> has_name(graph.entries(), name)
            &&& forall|i: int| 0 <= i < roots.len() ==> has_name(graph.entries(), (#[trigger] roots[i]).name)
        },
    }
}

fn contains_name(visited: &Vec<String>, name: &String) -> (r: bool)
    ensures
        r == views(visited@).contains(name@),
{
    let mut i: usize = 0;
    while i < visited.len()
        invariant
            i <= visited.len(),
            forall|j: int| 0 <= j < i ==> (#[trigger] views(visited@)[j]) != name@,
        decreases visited.len() - i,
    {
        if visited[i] == *name {
            assert(views(visited@)[i as int] == name@);
            return true;
        }
        i += 1;
    }
    false
}

fn names_of(deps: &Vec<Dep>) -> (r: Vec<String>)
    ensures
        views(r@) == names(dep_views(deps@)),
{
    let mut r: Vec<String> = Vec::new();
    let mut i: usize = 0;
    while i < deps.len()
        invariant
            i <= deps.len(),
            views(r@) == names(dep_views(deps@)).take(i as int),
        decreases deps.len() - i,
    {
        let name = deps[i].name.clone();
        proof {
            lemma_views_push(r@, name);
            let all = names(dep_views(deps@));
            assert(all.take(i + 1) == all.take(i as int).push(name@));
        }
        r.push(name);
        i += 1;
    }
    assert(names(dep_views(deps@)).take(deps.len() as int) == names(dep_views(deps@)));
    r
}

/// Moving the last open node behind the finished ones leaves the same
/// nodes.
proof fn lemma_close_frame(done: Seq<DepNodeView>, open: Seq<DepNodeView>)
    requires
        open.len() >= 1,
        distinct_names(done + open),
    ensures
        distinct_names(done.push(open.last()) + open.drop_last()),
        !has_name(done, open.last().dep.name),
        map_of(done.push(open.last()) + open.drop_last()) == map_of(done + open),
        forall|name: Seq<char>|
            has_name(done.push(open.last()) + open.drop_last(), name) <==> has_name(
                done + open,
                name,
            ),
{
    let a = done + open;
    let b = done.push(open.last()) + open.drop_last();
    let d = done.len() as int;
    let last = a.len() - 1;
    // where each node of `b` stands in `a`
    let to_a = |i: int|
        if i < d {
            i
        } else if i == d {
            last
        } else {
            i - 1
        };
    assert forall|i: int| 0 <= i < b.len() implies 0 <= to_a(i) < a.len() && #[trigger] b[i]
        == a[to_a(i)] by {}
    assert forall|i: int, j: int| 0 <= i < j < b.len() implies (#[trigger] b[i]).dep.name != (
    #[trigger] b[j]).dep.name by {
        let x = to_a(i);
        let y = to_a(j);
        assert(b[i] == a[x] && b[j] == a[y]);
        assert(x != y);
        if x < y {
            assert(a[x].dep.name != a[y].dep.name);
        } else {
            assert(a[y].dep.name != a[x].dep.name);
        }
    }
    if has_name(done, open.last().dep.name) {
        let i = choose|i: int| 0 <= i < done.len() && (#[trigger] done[i]).dep.name == open.last().dep.name;
        assert(a[i] == done[i]);
        assert(a[last] == open.last());
        assert(a[i].dep.name != a[last].dep.name);
    }
    assert forall|i: int| 0 <= i < b.len() implies a.contains(#[trigger] b[i]) by {
        assert(b[i] == a[to_a(i)]);
    }
    assert forall|i: int| 0 <= i < a.len() implies b.contains(#[trigger] a[i]) by {
        if i < d {
            assert(b[i] == a[i]);
        } else if i == last {
            assert(b[d] == a[i]);
        } else {
            assert(b[i + 1] == a[i]);
        }
    }
    lemma_map_of_same_nodes(a, b);
    assert forall|name: Seq<char>| has_name(b, name) <==> has_name(a, name) by {
        assert(map_of(a).contains_key(name) == map_of(b).contains_key(name));
    }
}

impl Resolver {
    /// Runs the walk until it meets a dependency whose name has not been
    /// handed out, or until nothing is left.
    fn advance(self) -> (r: Resolution)
        requires
            self.wf(None),
        ensures
            follows(r, self.roots(), self.fetched(), self.agenda(), self.known()),
    {
        let ghost roots = self.roots();
        let ghost fetched = self.fetched();
        let ghost agenda = self.agenda();
        let ghost known = self.known();
        let ghost mut skipped: int = 0;
        let mut s = self;
        assert(agenda.skip(0) == agenda);
        loop
            invariant
                roots == self.roots(),
                fetched == self.fetched(),
                agenda == self.agenda(),
                known == self.known(),
                s.wf(None),
                s.roots() == roots,
                s.fetched() == fetched,
                s.known() == known,
                0 <= skipped <= agenda.len(),
                s.agenda() == agenda.skip(skipped),
                forall|t: int| 0 <= t < skipped ==> fetched.contains((#[trigger] agenda[t]).name),
            decreases s.stack@.len(), s.stack@.last().children@.len() - s.stack@.last().next,
        {
            let ghost stack0 = s.stack@;
            let ghost nodes0 = s.all_nodes();
            let depth = s.stack.len();
            let top = &s.stack[depth - 1];
            if top.next < top.children.len() {
                let mut frame = s.stack.pop().unwrap();
                let child = frame.children[frame.next].clone();
                let ghost below = s.stack@;
                frame.next = frame.next + 1;
                let ghost turned = frame;
                s.stack.push(frame);
                proof {
                    let stack1 = s.stack@;
                    assert(stack1.drop_last() == below);
                    assert(stack0.drop_last() == below);
                    assert(remaining(stack0.last())[0] == child@);
                    assert(remaining(turned) == remaining(stack0.last()).skip(1));
                    assert(agenda_of(stack1) == agenda_of(stack0).skip(1));
                    assert(agenda_of(stack0)[0] == child@);
                    assert(agenda[skipped] == child@);
                    assert(agenda.skip(skipped).skip(1) == agenda.skip(skipped + 1));
                    assert forall|i: int| 1 <= i < stack0.len() implies frame_node(
                        #[trigger] stack1[i],
                    ) == frame_node(stack0[i]) by {
                        if i < stack0.len() - 1 {
                            assert(stack1[i] == stack0[i]);
                        }
                    }
                    assert(open_nodes(stack1) == open_nodes(stack0));
                    assert(s.all_nodes() == nodes0);
                    assert(stack1[0].children@ == stack0[0].children@) by {
                        if stack0.len() > 1 {
                            assert(stack1[0] == stack0[0]);
                        }
                    }
                    assert forall|i: int| 0 <= i < stack1.len() implies (#[trigger] stack1[i]).next
                        <= stack1[i].children@.len() && (i >= 1 ==> stack1[i].owner is Some) by {
                        if i < stack1.len() - 1 {
                            assert(stack1[i] == stack0[i]);
                        }
                    }
                }
                if contains_name(&s.visited, &child.name) {
                    proof {
                        let stack1 = s.stack@;
                        assert forall|i: int, j: int|
                            0 <= i < stack1.len() && 0 <= j < stack1[i].next implies fetched.contains(
                            (#[trigger] stack1[i].children@[j])@.name,
                        ) by {
                            if i < stack1.len() - 1 {
                                assert(stack1[i] == stack0[i]);
                            } else if j < stack0.last().next {
                                assert(stack1[i].children@[j] == stack0[i].children@[j]);
                            }
                        }
                        skipped = skipped + 1;
                        assert(s.wf(None));
                    }
                } else {
                    let name = child.name.clone();
                    proof {
                        lemma_views_push(s.visited@, name);
                        lemma_first_unfetched_is(agenda, fetched, skipped);
                    }
                    s.visited.push(name);
                    proof {
                        let stack1 = s.stack@;
                        let now = s.fetched();
                        assert(now == fetched.push(child@.name));
                        assert forall|n: Seq<char>|
                            now.contains(n) <==> fetched.contains(n) || n == child@.name by {
                            if fetched.contains(n) {
                                let q = choose|q: int| 0 <= q < fetched.len() && fetched[q] == n;
                                assert(now[q] == n);
                            }
                            if n == child@.name {
                                assert(now[fetched.len() as int] == n);
                            }
                        }
                        assert forall|i: int, j: int|
                            0 <= i < stack1.len() && 0 <= j < stack1[i].next implies now.contains(
                            (#[trigger] stack1[i].children@[j])@.name,
                        ) by {
                            if i < stack1.len() - 1 {
                                assert(stack1[i] == stack0[i]);
                            } else if j < stack0.last().next {
                                assert(stack1[i].children@[j] == stack0[i].children@[j]);
                            }
                        }
                        assert(now.no_duplicates());
                        assert(!has_name(nodes0, child@.name));
                        let entries = s.graph.entries();
                        assert forall|i: int, k: int|
                            0 <= i < entries.len() && 0 <= k
                                < entries[i].dependencies.len() implies now.contains(
                            #[trigger] entries[i].dependencies[k],
                        ) by {
                            assert(fetched.contains(entries[i].dependencies[k]));
                        }
                        assert(s.wf(Some(child@.name)));
                    }
                    let pending = PendingFetch { state: s, dep: child };
                    proof {
                        assert(pending.wf());
                        assert(first_unfetched(agenda, fetched) == skipped);
                        assert(pending.dependency() == agenda[skipped]);
                        assert(pending.fetched() == fetched.push(agenda[skipped].name));
                        assert(pending.agenda() == agenda.skip(skipped + 1));
                        assert(pending.known() == known);
                        assert(pending.roots() == roots);
                    }
                    return Resolution::Fetch(pending);
                }
            } else if depth == 1 {
                proof {
                    assert(stack0.drop_last().len() == 0);
                    assert(remaining(stack0.last()).len() == 0);
                    assert(agenda_of(stack0.drop_last()).len() == 0);
                    assert(agenda_of(stack0).len() == 0);
                    assert(skipped == agenda.len());
                    lemma_first_unfetched_is(agenda, fetched, skipped);
                    assert(open_nodes(stack0).len() == 0);
                    assert(s.all_nodes() == s.graph.entries());
                    let entries = s.graph.entries();
                    assert forall|i: int, k: int|
                        0 <= i < entries.len() && 0 <= k
                            < entries[i].dependencies.len() implies has_name(
                        entries,
                        #[trigger] entries[i].dependencies[k],
                    ) by {
                        assert(fetched.contains(entries[i].dependencies[k]));
                    }
                    assert forall|i: int| 0 <= i < roots.len() implies has_name(
                        entries,
                        (#[trigger] roots[i]).name,
                    ) by {
                        assert(roots[i] == stack0[0].children@[i]@);
                        assert(fetched.contains(stack0[0].children@[i]@.name));
                    }
                }
                return Resolution::Done(s.graph);
            } else {
                let frame = s.stack.pop().unwrap();
                let ghost finished = s.graph.entries();
                let ghost open = open_nodes(stack0);
                let dependencies = names_of(&frame.children);
                let owner = match frame.owner {
                    Some(dep) => dep,
                    None => {
                        assert(false);
                        return Resolution::Done(s.graph);
                    },
                };
                let node = DepNode { dep: owner, dependencies };
                proof {
                    let stack1 = s.stack@;
                    assert(stack1 == stack0.drop_last());
                    assert(node@ == frame_node(stack0.last()));
                    assert(open.last() == node@);
                    assert(open_nodes(stack1) == open.drop_last());
                    lemma_close_frame(finished, open);
                    assert forall|i: int, j: int| 0 <= i < j < finished.len() implies (
                    #[trigger] finished[i]).dep.name != (#[trigger] finished[j]).dep.name by {
                        assert(nodes0[i] == finished[i] && nodes0[j] == finished[j]);
                    }
                    assert(remaining(stack0.last()).len() == 0);
                    assert(agenda_of(stack0) == agenda_of(stack1));
                }
                s.graph.insert(node);
                proof {
                    let stack1 = s.stack@;
                    assert(s.graph.entries() == finished.push(open.last()));
                    let entries = s.graph.entries();
                    assert forall|i: int, k: int|
                        0 <= i < entries.len() && 0 <= k
                            < entries[i].dependencies.len() implies fetched.contains(
                        #[trigger] entries[i].dependencies[k],
                    ) by {
                        if i < finished.len() {
                            assert(entries[i] == finished[i]);
                        } else {
                            assert(entries[i].dependencies[k] == stack0.last().children@[k]@.name);
                        }
                    }
                    assert forall|i: int, j: int|
                        0 <= i < stack1.len() && 0 <= j < stack1[i].next implies fetched.contains(
                        (#[trigger] stack1[i].children@[j])@.name,
                    ) by {
                        assert(stack1[i] == stack0[i]);
                    }
                    assert forall|i: int| 0 <= i < stack1.len() implies (#[trigger] stack1[i]).next
                        <= stack1[i].children@.len() && (i >= 1 ==> stack1[i].owner is Some) by {
                        assert(stack1[i] == stack0[i]);
                    }
                    assert(stack1[0] == stack0[0]);
                }
            }
        }
    }
}

/// Starts a pass over the root dependencies `deps` and runs it to the first
/// dependency that has to be fetched.
pub fn resolve_and_fetch(deps: &Vec<Dep>) -> (r: Resolution)
    ensures
        follows(r, dep_views(deps@), Seq::empty(), dep_views(deps@), Map::empty()),
{
    let mut children: Vec<Dep> = Vec::new();
    let mut i: usize = 0;
    while i < deps.len()
        invariant
            i <= deps.len(),
            dep_views(children@) == dep_views(deps@).take(i as int),
        decreases deps.len() - i,
    {
        let dep = deps[i].clone();
        proof {
            assert(dep_views(deps@).take(i + 1) == dep_views(deps@).take(i as int).push(dep@));
            assert(dep_views(children@.push(dep)) == dep_views(children@).push(dep@));
        }
        children.push(dep);
        i += 1;
    }
    assert(dep_views(deps@).take(deps.len() as int) == dep_views(deps@));
    let mut stack: Vec<Frame> = Vec::new();
    stack.push(Frame { owner: None, children, next: 0 });
    let state = Resolver { stack, visited: Vec::new(), graph: DepGraph::new() };
    proof {
        assert(state.all_nodes().len() == 0);
        assert(state.fetched().len() == 0);
        assert(state.stack@.drop_last().len() == 0);
        assert(remaining(state.stack@.last()) == dep_views(deps@));
        assert(agenda_of(state.stack@.drop_last()) == Seq::<DepView>::empty());
        assert(state.agenda() == dep_views(deps@));
        assert(state.known() =~= Map::empty());
        assert(state.fetched() =~= Seq::empty());
        assert(state.roots() == dep_views(deps@));
    }
    state.advance()
}

impl PendingFetch {
    /// Goes on with the pass, with `children` as what the dependency
    /// declares.
    fn resume(self, children: Vec<Dep>) -> (r: Resolution)
        requires
            self.wf(),
        ensures
            follows(
                r,
                self.roots(),
                self.fetched(),
                dep_views(children@) + self.agenda(),
                self.known().insert(
                    self.dependency().name,
                    node_of(self.dependency(), dep_views(children@)),
                ),
            ),
    {
        let PendingFetch { state, dep } = self;
        let mut s = state;
        let ghost stack0 = s.stack@;
        let ghost nodes0 = s.all_nodes();
        let ghost node = node_of(dep@, dep_views(children@));
        let ghost declared = dep_views(children@);
        let frame = Frame { owner: Some(dep), children, next: 0 };
        s.stack.push(frame);
        proof {
            let stack1 = s.stack@;
            assert(stack1.drop_last() == stack0);
            assert(remaining(stack1.last()) == declared);
            assert(open_nodes(stack1) == open_nodes(stack0).push(node));
            assert(s.all_nodes() == nodes0.push(node));
            lemma_map_of_push(nodes0, node);
            assert(stack1[0] == stack0[0]);
            assert forall|i: int| 0 <= i < stack1.len() implies (#[trigger] stack1[i]).next
                <= stack1[i].children@.len() && (i >= 1 ==> stack1[i].owner is Some) by {
                if i < stack0.len() {
                    assert(stack1[i] == stack0[i]);
                }
            }
            assert forall|i: int, j: int|
                0 <= i < stack1.len() && 0 <= j < stack1[i].next implies s.fetched().contains(
                (#[trigger] stack1[i].children@[j])@.name,
            ) by {
                if i < stack0.len() {
                    assert(stack1[i] == stack0[i]);
                }
            }
        }
        s.advance()
    }

    /// Goes on with the pass after the dependency was fetched: `config` is
    /// the configuration that it carries. Its dependencies are looked at
    /// before anything else that was left.
    pub fn loaded(self, config: &Config) -> (r: Resolution)
        requires
            self.wf(),
        ensures
            follows(
                r,
                self.roots(),
                self.fetched(),
                parsed(config.dependencies@) + self.agenda(),
                self.known().insert(
                    self.dependency().name,
                    node_of(self.dependency(), parsed(config.dependencies@)),
                ),
            ),
    {
        let children = parse_deps(config);
        self.resume(children)
    }

    /// Goes on with the pass after the fetch of the dependency has failed:
    /// the dependency stays in the graph, with no dependencies of its own,
    /// and what is missing shows when it is built.
    pub fn abandoned(self) -> (r: Resolution)
        requires
            self.wf(),
        ensures
            follows(
                r,
                self.roots(),
                self.fetched(),
                self.agenda(),
                self.known().insert(
                    self.dependency().name,
                    node_of(self.dependency(), Seq::empty()),
                ),
            ),
    {
        let children: Vec<Dep> = Vec::new();
        assert(dep_views(children@) + self.agenda() == self.agenda());
        assert(dep_views(children@) == Seq::<DepView>::empty());
        self.resume(children)
    }
}

/// The deduplication law: no name is handed out for fetching twice in one
/// pass.
pub proof fn lemma_fetched_once(p: PendingFetch)
    requires
        p.wf(),
    ensures
        p.fetched().no_duplicates(),
        p.fetched().contains(p.dependency().name),
{
}

/// A pass hands out only a name that it has not handed out before.
pub proof fn lemma_fetch_is_new(
    r: Resolution,
    roots: Seq<DepView>,
    fetched: Seq<Seq<char>>,
    agenda: Seq<DepView>,
    known: Map<Seq<char>, DepNodeView>,
)
    requires
        follows(r, roots, fetched, agenda, known),
    ensures
        r matches Resolution::Fetch(p) ==> !fetched.contains(p.dependency().name),
{
    lemma_first_unfetched(agenda, fetched);
}

} // verus!
