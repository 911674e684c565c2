//! Dependencies and the graph they form: nodes keyed by name, each with the
//! names it depends on, and the order in which to build them.

use vstd::prelude::*;
use crate::text::views;

verus! {

/// Where a dependency comes from.
#[derive(Debug)]
pub enum DepSource {
    Git { repo: String, tag: Option<String> },
    Path(String),
}

/// What a source holds, as text.
pub enum DepSourceView {
    Git { repo: Seq<char>, tag: Option<Seq<char>> },
    Path(Seq<char>),
}

impl View for DepSource {
    type V = DepSourceView;

    open spec fn view(&self) -> DepSourceView {
        match self {
            DepSource::Git { repo, tag } => DepSourceView::Git {
                repo: repo@,
                tag: match tag {
                    Some(t) => Some(t@),
                    None => None,
                },
            },
            DepSource::Path(path) => DepSourceView::Path(path@),
        }
    }
}

impl Clone for DepSource {
    fn clone(&self) -> (r: DepSource)
        ensures
            r@ == self@,
    {
        match self {
            DepSource::Git { repo, tag } => DepSource::Git {
                repo: repo.clone(),
                tag: match tag {
                    Some(t) => Some(t.clone()),
                    None => None,
                },
            },
            DepSource::Path(path) => DepSource::Path(path.clone()),
        }
    }
}

/// A declared dependency: its name, and its source.
#[derive(Debug)]
pub struct Dep {
    pub name: String,
    pub source: DepSource,
}

/// What a dependency holds, as text.
pub struct DepView {
    pub name: Seq<char>,
    pub source: DepSourceView,
}

impl View for Dep {
    type V = DepView;

    open spec fn view(&self) -> DepView {
        DepView { name: self.name@, source: self.source@ }
    }
}

impl Clone for Dep {
    fn clone(&self) -> (r: Dep)
        ensures
            r@ == self@,
    {
        Dep { name: self.name.clone(), source: self.source.clone() }
    }
}

/// The views of a sequence of dependencies.
pub open spec fn dep_views(deps: Seq<Dep>) -> Seq<DepView> {
    Seq::new(deps.len(), |i: int| deps[i]@)
}

/// A resolved dependency with the names of the dependencies it declares, in
/// the order of its declaration.
#[derive(Debug)]
pub struct DepNode {
    pub dep: Dep,
    pub dependencies: Vec<String>,
}

/// What a node holds, as text.
pub struct DepNodeView {
    pub dep: DepView,
    pub dependencies: Seq<Seq<char>>,
}

impl View for DepNode {
    type V = DepNodeView;

    open spec fn view(&self) -> DepNodeView {
        DepNodeView { dep: self.dep@, dependencies: views(self.dependencies@) }
    }
}

/// The views of a sequence of borrowed nodes.
pub open spec fn node_views(nodes: Seq<&DepNode>) -> Seq<DepNodeView> {
    Seq::new(nodes.len(), |i: int| nodes[i]@)
}

/// Whether some node bears the name.
pub open spec fn has_name(nodes: Seq<DepNodeView>, name: Seq<char>) -> bool {
    exists|i: int| 0 <= i < nodes.len() && (#[trigger] nodes[i]).dep.name == name
}

/// No two nodes bear the same name.
pub open spec fn distinct_names(nodes: Seq<DepNodeView>) -> bool {
    forall|i: int, j: int|
        0 <= i < j < nodes.len() ==> (#[trigger] nodes[i]).dep.name != (#[trigger] nodes[j]).dep.name
}

/// Every name that a node depends on is the name of a node.
pub open spec fn closed_under_dependencies(nodes: Seq<DepNodeView>) -> bool {
    forall|i: int, k: int|
        0 <= i < nodes.len() && 0 <= k < nodes[i].dependencies.len() ==> has_name(
            nodes,
            #[trigger] nodes[i].dependencies[k],
        )
}

/// The node named `a` declares a dependency on `b`.
pub open spec fn edge(nodes: Seq<DepNodeView>, a: Seq<char>, b: Seq<char>) -> bool {
    exists|i: int|
        0 <= i < nodes.len() && (#[trigger] nodes[i]).dep.name == a && nodes[i].dependencies.contains(
            b,
        )
}

/// A walk along declared dependencies.
pub open spec fn is_path(nodes: Seq<DepNodeView>, p: Seq<Seq<char>>) -> bool {
    p.len() >= 1 && forall|t: int| 0 <= t < p.len() - 1 ==> edge(nodes, #[trigger] p[t], p[t + 1])
}

/// `b` can be reached from `a` along declared dependencies, in zero or more
/// steps.
pub open spec fn reaches(nodes: Seq<DepNodeView>, a: Seq<char>, b: Seq<char>) -> bool {
    exists|p: Seq<Seq<char>>| #[trigger] is_path(nodes, p) && p.first() == a && p.last() == b
}

/// No name depends on itself, directly or through others.
pub open spec fn acyclic(nodes: Seq<DepNodeView>) -> bool {
    forall|p: Seq<Seq<char>>| #[trigger] is_path(nodes, p) && p.len() >= 2 ==> p.first() != p.last()
}

/// Whether the name stands in `order` before position `upto`.
pub open spec fn built_before(order: Seq<DepNodeView>, upto: int, name: Seq<char>) -> bool {
    exists|q: int| 0 <= q < upto && q < order.len() && (#[trigger] order[q]).dep.name == name
}

/// A build order of `nodes`: every node once, and each dependency of a node
/// that is itself a node stands before it, unless the two lie on a cycle, in
/// which case the dependency reaches the node.
pub open spec fn is_build_order(nodes: Seq<DepNodeView>, order: Seq<DepNodeView>) -> bool {
    &&& order.len() == nodes.len()
    &&& forall|i: int| 0 <= i < order.len() ==> nodes.contains(#[trigger] order[i])
    &&& distinct_names(order)
    &&& forall|i: int, k: int|
        0 <= i < order.len() && 0 <= k < order[i].dependencies.len() && has_name(
            nodes,
            #[trigger] order[i].dependencies[k],
        ) ==> built_before(order, i, order[i].dependencies[k]) || reaches(
            nodes,
            order[i].dependencies[k],
            order[i].dep.name,
        )
}

/// Every name reaches itself.
pub proof fn lemma_reaches_self(nodes: Seq<DepNodeView>, a: Seq<char>)
    ensures
        reaches(nodes, a, a),
{
    let p = seq![a];
    assert(is_path(nodes, p));
    assert(p.first() == a && p.last() == a);
}

/// A walk goes on along a declared dependency.
pub proof fn lemma_reaches_step(nodes: Seq<DepNodeView>, a: Seq<char>, b: Seq<char>, c: Seq<char>)
    requires
        reaches(nodes, a, b),
        edge(nodes, b, c),
    ensures
        reaches(nodes, a, c),
{
    let p = choose|p: Seq<Seq<char>>| #[trigger] is_path(nodes, p) && p.first() == a && p.last() == b;
    let q = p.push(c);
    assert forall|t: int| 0 <= t < q.len() - 1 implies edge(nodes, #[trigger] q[t], q[t + 1]) by {
        if t < p.len() - 1 {
            assert(q[t] == p[t]);
            assert(q[t + 1] == p[t + 1]);
        } else {
            assert(q[t] == b);
            assert(q[t + 1] == c);
        }
    }
    assert(is_path(nodes, q));
    assert(q.first() == a && q.last() == c);
}

/// The topological-order law: in a build order of a graph without cycles,
/// every node stands strictly behind each node that it names as a
/// dependency.
pub proof fn lemma_dependencies_come_first(
    nodes: Seq<DepNodeView>,
    order: Seq<DepNodeView>,
    i: int,
    k: int,
)
    requires
        distinct_names(nodes),
        acyclic(nodes),
        is_build_order(nodes, order),
        0 <= i < order.len(),
        0 <= k < order[i].dependencies.len(),
        has_name(nodes, order[i].dependencies[k]),
    ensures
        exists|q: int| 0 <= q < i && (#[trigger] order[q]).dep.name == order[i].dependencies[k],
{
    let d = order[i].dependencies[k];
    let n = order[i].dep.name;
    if !built_before(order, i, d) {
        // the dependency reaches the node, and the node names it: a cycle
        assert(nodes.contains(order[i]));
        let w = choose|w: int| 0 <= w < nodes.len() && nodes[w] == order[i];
        assert(nodes[w].dep.name == n && nodes[w].dependencies.contains(d));
        let p = choose|p: Seq<Seq<char>>|
            #[trigger] is_path(nodes, p) && p.first() == d && p.last() == n;
        let c = p.push(d);
        assert forall|t: int| 0 <= t < c.len() - 1 implies edge(nodes, #[trigger] c[t], c[t + 1]) by {
            if t < p.len() - 1 {
                assert(c[t] == p[t]);
                assert(c[t + 1] == p[t + 1]);
            } else {
                assert(c[t] == n);
                assert(c[t + 1] == d);
            }
        }
        assert(is_path(nodes, c));
        assert(c.len() >= 2 && c.first() == d && c.last() == d);
        assert(false);
    }
}

/// The law for a whole graph: where every dependency named is a node and
/// there is no cycle, each node of a build order stands strictly behind all
/// the nodes it names.
pub proof fn lemma_build_order_is_topological(nodes: Seq<DepNodeView>, order: Seq<DepNodeView>)
    requires
        distinct_names(nodes),
        closed_under_dependencies(nodes),
        acyclic(nodes),
        is_build_order(nodes, order),
    ensures
        forall|i: int, k: int|
            0 <= i < order.len() && 0 <= k < order[i].dependencies.len() ==> built_before(
                order,
                i,
                #[trigger] order[i].dependencies[k],
            ),
{
    assert forall|i: int, k: int|
        0 <= i < order.len() && 0 <= k < order[i].dependencies.len() implies built_before(
        order,
        i,
        #[trigger] order[i].dependencies[k],
    ) by {
        assert(nodes.contains(order[i]));
        let w = choose|w: int| 0 <= w < nodes.len() && nodes[w] == order[i];
        assert(has_name(nodes, nodes[w].dependencies[k]));
        lemma_dependencies_come_first(nodes, order, i, k);
        let q = choose|q: int|
            0 <= q < i && (#[trigger] order[q]).dep.name == order[i].dependencies[k];
        assert(order[q].dep.name == order[i].dependencies[k]);
    }
}

/// Position of the node that bears the name.
pub open spec fn index_of_name(nodes: Seq<DepNodeView>, name: Seq<char>) -> int {
    choose|i: int| 0 <= i < nodes.len() && (#[trigger] nodes[i]).dep.name == name
}

/// The nodes as a mapping from their names.
pub open spec fn map_of(nodes: Seq<DepNodeView>) -> Map<Seq<char>, DepNodeView> {
    Map::new(|name: Seq<char>| has_name(nodes, name), |name: Seq<char>| nodes[index_of_name(nodes, name)])
}

/// Among distinct names, each node is what the mapping holds under its name.
pub proof fn lemma_map_of_at(nodes: Seq<DepNodeView>, i: int)
    requires
        distinct_names(nodes),
        0 <= i < nodes.len(),
    ensures
        map_of(nodes).contains_key(nodes[i].dep.name),
        map_of(nodes)[nodes[i].dep.name] == nodes[i],
        index_of_name(nodes, nodes[i].dep.name) == i,
{
    let name = nodes[i].dep.name;
    let p = index_of_name(nodes, name);
    assert(has_name(nodes, name));
    if p < i {
        assert(nodes[p].dep.name != nodes[i].dep.name);
    } else if i < p {
        assert(nodes[i].dep.name != nodes[p].dep.name);
    }
}

/// Two sequences of distinctly named nodes that hold the same nodes give
/// the same mapping.
pub proof fn lemma_map_of_same_nodes(a: Seq<DepNodeView>, b: Seq<DepNodeView>)
    requires
        distinct_names(a),
        distinct_names(b),
        forall|i: int| 0 <= i < a.len() ==> b.contains(#[trigger] a[i]),
        forall|i: int| 0 <= i < b.len() ==> a.contains(#[trigger] b[i]),
    ensures
        map_of(a) == map_of(b),
{
    assert forall|name: Seq<char>| has_name(a, name) <==> has_name(b, name) by {
        if has_name(a, name) {
            let i = index_of_name(a, name);
            assert(b.contains(a[i]));
            let j = choose|j: int| 0 <= j < b.len() && b[j] == a[i];
            assert(b[j].dep.name == name);
        }
        if has_name(b, name) {
            let i = index_of_name(b, name);
            assert(a.contains(b[i]));
            let j = choose|j: int| 0 <= j < a.len() && a[j] == b[i];
            assert(a[j].dep.name == name);
        }
    }
    assert forall|name: Seq<char>| has_name(a, name) implies map_of(a)[name] == map_of(b)[name] by {
        let i = index_of_name(a, name);
        assert(b.contains(a[i]));
        let j = choose|j: int| 0 <= j < b.len() && b[j] == a[i];
        lemma_map_of_at(a, i);
        lemma_map_of_at(b, j);
    }
    assert(map_of(a) =~= map_of(b));
}

/// A node put in the place of the node of the same name replaces it in the
/// mapping.
pub proof fn lemma_map_of_update(nodes: Seq<DepNodeView>, i: int, node: DepNodeView)
    requires
        distinct_names(nodes),
        0 <= i < nodes.len(),
        nodes[i].dep.name == node.dep.name,
    ensures
        distinct_names(nodes.update(i, node)),
        map_of(nodes.update(i, node)) == map_of(nodes).insert(node.dep.name, node),
{
    let new = nodes.update(i, node);
    assert forall|a: int, b: int| 0 <= a < b < new.len() implies (#[trigger] new[a]).dep.name != (
    #[trigger] new[b]).dep.name by {
        assert(nodes[a].dep.name != nodes[b].dep.name);
    }
    assert forall|name: Seq<char>| has_name(new, name) <==> has_name(nodes, name) by {
        if has_name(new, name) {
            let j = index_of_name(new, name);
            assert(nodes[j].dep.name == name);
        }
        if has_name(nodes, name) {
            let j = index_of_name(nodes, name);
            assert(new[j].dep.name == name);
        }
    }
    assert(has_name(nodes, node.dep.name));
    assert forall|name: Seq<char>| has_name(new, name) implies map_of(new)[name] == map_of(
        nodes,
    ).insert(node.dep.name, node)[name] by {
        let j = index_of_name(nodes, name);
        lemma_map_of_at(nodes, j);
        lemma_map_of_at(new, j);
    }
    assert(map_of(new) =~= map_of(nodes).insert(node.dep.name, node));
}

/// A node under a new name extends the mapping by that name.
pub proof fn lemma_map_of_push(nodes: Seq<DepNodeView>, node: DepNodeView)
    requires
        distinct_names(nodes),
        !has_name(nodes, node.dep.name),
    ensures
        distinct_names(nodes.push(node)),
        map_of(nodes.push(node)) == map_of(nodes).insert(node.dep.name, node),
        forall|name: Seq<char>|
            has_name(nodes.push(node), name) <==> has_name(nodes, name) || name == node.dep.name,
{
    let more = nodes.push(node);
    assert forall|i: int, j: int| 0 <= i < j < more.len() implies (#[trigger] more[i]).dep.name != (
    #[trigger] more[j]).dep.name by {
        if j < nodes.len() {
            assert(nodes[i].dep.name != nodes[j].dep.name);
        } else {
            assert(more[i] == nodes[i]);
        }
    }
    assert forall|name: Seq<char>|
        has_name(more, name) <==> has_name(nodes, name) || name == node.dep.name by {
        if has_name(more, name) {
            let i = index_of_name(more, name);
            if i < nodes.len() {
                assert(nodes[i].dep.name == name);
            }
        }
        if has_name(nodes, name) {
            let i = index_of_name(nodes, name);
            assert(more[i].dep.name == name);
        }
        if name == node.dep.name {
            assert(more[nodes.len() as int].dep.name == name);
        }
    }
    assert forall|name: Seq<char>| has_name(more, name) implies map_of(more)[name] == map_of(
        nodes,
    ).insert(node.dep.name, node)[name] by {
        if name == node.dep.name {
            lemma_map_of_at(more, nodes.len() as int);
        } else {
            let i = index_of_name(nodes, name);
            assert(more[i] == nodes[i]);
            lemma_map_of_at(more, i);
            lemma_map_of_at(nodes, i);
        }
    }
    assert(map_of(more) =~= map_of(nodes).insert(node.dep.name, node));
}

/// The dependency graph: resolved nodes by name. Nodes are kept in the
/// order in which they were inserted, one for each name.
#[derive(Debug)]
pub struct DepGraph {
    nodes: Vec<DepNode>,
}

/// Number of marks still unset.
spec fn unvisited(visited: Seq<bool>) -> nat
    decreases visited.len(),
{
    if visited.len() == 0 {
        0
    } else {
        unvisited(visited.drop_last()) + if visited.last() {
            0nat
        } else {
            1nat
        }
    }
}

proof fn lemma_mark(visited: Seq<bool>, i: int)
    requires
        0 <= i < visited.len(),
        !visited[i],
    ensures
        unvisited(visited.update(i, true)) + 1 == unvisited(visited),
    decreases visited.len(),
{
    let marked = visited.update(i, true);
    if i == visited.len() - 1 {
        assert(marked.drop_last() == visited.drop_last());
    } else {
        lemma_mark(visited.drop_last(), i);
        assert(marked.drop_last() == visited.drop_last().update(i, true));
    }
}

proof fn lemma_unvisited_extremes(visited: Seq<bool>)
    ensures
        (forall|i: int| 0 <= i < visited.len() ==> !visited[i]) ==> unvisited(visited)
            == visited.len(),
        (forall|i: int| 0 <= i < visited.len() ==> visited[i]) ==> unvisited(visited) == 0,
    decreases visited.len(),
{
    if visited.len() > 0 {
        let rest = visited.drop_last();
        lemma_unvisited_extremes(rest);
        if forall|i: int| 0 <= i < visited.len() ==> !visited[i] {
            assert forall|i: int| 0 <= i < rest.len() implies !rest[i] by {
                assert(rest[i] == visited[i]);
            }
        }
        if forall|i: int| 0 <= i < visited.len() ==> visited[i] {
            assert forall|i: int| 0 <= i < rest.len() implies rest[i] by {
                assert(rest[i] == visited[i]);
            }
        }
    }
}

/// Whether the name is that of a node placed in `order` before `upto`.
spec fn placed(nodes: Seq<DepNodeView>, order: Seq<usize>, upto: int, name: Seq<char>) -> bool {
    exists|q: int|
        0 <= q < upto && q < order.len() && (#[trigger] order[q]) < nodes.len()
            && nodes[order[q] as int].dep.name == name
}

/// The dependency `name` of the node at index `at` is accounted for.
spec fn dep_settled(
    nodes: Seq<DepNodeView>,
    order: Seq<usize>,
    upto: int,
    at: int,
    name: Seq<char>,
) -> bool {
    has_name(nodes, name) ==> placed(nodes, order, upto, name) || reaches(
        nodes,
        name,
        nodes[at].dep.name,
    )
}

/// Every dependency of the node at position `p` of `order` is accounted for.
spec fn settled(nodes: Seq<DepNodeView>, order: Seq<usize>, p: int) -> bool {
    forall|k: int|
        0 <= k < nodes[order[p] as int].dependencies.len() ==> dep_settled(
            nodes,
            order,
            p,
            order[p] as int,
            #[trigger] nodes[order[p] as int].dependencies[k],
        )
}

/// What holds of the marks and the order throughout the walk.
spec fn walk_inv(nodes: Seq<DepNodeView>, visited: Seq<bool>, order: Seq<usize>) -> bool {
    &&& visited.len() == nodes.len()
    &&& forall|p: int|
        0 <= p < order.len() ==> (#[trigger] order[p]) < nodes.len() && visited[order[p] as int]
    &&& forall|p: int, q: int|
        0 <= p < q < order.len() ==> (#[trigger] order[p]) != (#[trigger] order[q])
    &&& forall|p: int| 0 <= p < order.len() ==> #[trigger] settled(nodes, order, p)
}

/// The nodes that are marked but not yet placed all reach the node at `at`.
spec fn open_nodes_reach(
    nodes: Seq<DepNodeView>,
    visited: Seq<bool>,
    order: Seq<usize>,
    at: int,
) -> bool {
    forall|g: int|
        0 <= g < nodes.len() && #[trigger] visited[g] && !order.contains(g as usize) ==> reaches(
            nodes,
            nodes[g].dep.name,
            nodes[at].dep.name,
        )
}

proof fn lemma_placed_grows(
    nodes: Seq<DepNodeView>,
    order: Seq<usize>,
    longer: Seq<usize>,
    upto: int,
    later: int,
    name: Seq<char>,
)
    requires
        placed(nodes, order, upto, name),
        order.len() <= longer.len(),
        order == longer.take(order.len() as int),
        upto <= later,
    ensures
        placed(nodes, longer, later, name),
{
    let q = choose|q: int|
        0 <= q < upto && q < order.len() && (#[trigger] order[q]) < nodes.len()
            && nodes[order[q] as int].dep.name == name;
    assert(longer[q] == order[q]);
}

proof fn lemma_settled_grows(
    nodes: Seq<DepNodeView>,
    order: Seq<usize>,
    longer: Seq<usize>,
    p: int,
)
    requires
        0 <= p < order.len(),
        settled(nodes, order, p),
        order.len() <= longer.len(),
        order == longer.take(order.len() as int),
    ensures
        settled(nodes, longer, p),
{
    assert(longer[p] == order[p]);
    let at = order[p] as int;
    assert forall|k: int| 0 <= k < nodes[at].dependencies.len() implies dep_settled(
        nodes,
        longer,
        p,
        at,
        #[trigger] nodes[at].dependencies[k],
    ) by {
        let name = nodes[at].dependencies[k];
        assert(dep_settled(nodes, order, p, at, name));
        if has_name(nodes, name) && placed(nodes, order, p, name) {
            lemma_placed_grows(nodes, order, longer, p, p, name);
        }
    }
}

impl View for DepGraph {
    type V = Map<Seq<char>, DepNodeView>;

    /// The nodes by name.
    open spec fn view(&self) -> Map<Seq<char>, DepNodeView> {
        map_of(self.entries())
    }
}

impl DepGraph {
    /// The nodes, in the order of their insertion.
    pub closed spec fn entries(&self) -> Seq<DepNodeView> {
        Seq::new(self.nodes.len() as nat, |i: int| self.nodes[i]@)
    }

    /// No name is held twice.
    pub open spec fn wf(&self) -> bool {
        distinct_names(self.entries())
    }

    /// Position of the node that bears the name.
    pub open spec fn position(&self, name: Seq<char>) -> int {
        index_of_name(self.entries(), name)
    }

    /// An empty graph.
    pub fn new() -> (g: DepGraph)
        ensures
            g.wf(),
            g.entries().len() == 0,
    {
        DepGraph { nodes: Vec::new() }
    }

    /// Number of nodes.
    pub fn len(&self) -> (n: usize)
        ensures
            n == self.entries().len(),
    {
        self.nodes.len()
    }

    fn index_of(&self, name: &String) -> (r: Option<usize>)
        ensures
            match r {
                Some(i) => i < self.entries().len() && self.entries()[i as int].dep.name == name@,
                None => !has_name(self.entries(), name@),
            },
    {
        let mut i: usize = 0;
        while i < self.nodes.len()
            invariant
                i <= self.nodes.len(),
                forall|j: int| 0 <= j < i ==> (#[trigger] self.entries()[j]).dep.name != name@,
            decreases self.nodes.len() - i,
        {
            if self.nodes[i].dep.name == *name {
                return Some(i);
            }
            i += 1;
        }
        None
    }

    /// Whether a node bears the name.
    pub fn contains(&self, name: &String) -> (r: bool)
        ensures
            r == self@.contains_key(name@),
    {
        self.index_of(name).is_some()
    }

    /// The node that bears the name.
    pub fn get(&self, name: &String) -> (r: Option<&DepNode>)
        requires
            self.wf(),
        ensures
            match r {
                Some(node) => self@.contains_key(name@) && node@ == self@[name@],
                None => !self@.contains_key(name@),
            },
    {
        match self.index_of(name) {
            Some(i) => {
                proof {
                    lemma_map_of_at(self.entries(), i as int);
                }
                Some(&self.nodes[i])
            },
            None => None,
        }
    }

    /// Puts a node under its name. A node that bore the name before is
    /// replaced and keeps its place; a new name goes to the end.
    pub fn insert(&mut self, node: DepNode)
        requires
            old(self).wf(),
        ensures
            final(self).wf(),
            final(self)@ == old(self)@.insert(node@.dep.name, node@),
            final(self).entries() == if has_name(old(self).entries(), node@.dep.name) {
                old(self).entries().update(old(self).position(node@.dep.name), node@)
            } else {
                old(self).entries().push(node@)
            },
    {
        let ghost before = self.entries();
        match self.index_of(&node.dep.name) {
            Some(i) => {
                proof {
                    let p = self.position(node@.dep.name);
                    if p < i {
                        assert(before[p].dep.name != before[i as int].dep.name);
                    } else if i < p {
                        assert(before[i as int].dep.name != before[p].dep.name);
                    }
                }
                let ghost shown = node@;
                proof {
                    lemma_map_of_update(before, i as int, shown);
                }
                self.nodes.set(i, node);
                assert(self.entries() == before.update(i as int, shown));
                assert forall|a: int, b: int| 0 <= a < b < self.entries().len() implies (
                #[trigger] self.entries()[a]).dep.name != (#[trigger] self.entries()[b]).dep.name by {
                    assert(before[a].dep.name != before[b].dep.name);
                }
            },
            None => {
                let ghost shown = node@;
                proof {
                    lemma_map_of_push(before, shown);
                }
                self.nodes.push(node);
                assert(self.entries() == before.push(shown));
                assert forall|a: int, b: int| 0 <= a < b < self.entries().len() implies (
                #[trigger] self.entries()[a]).dep.name != (#[trigger] self.entries()[b]).dep.name by {
                    if b < before.len() {
                        assert(before[a].dep.name != before[b].dep.name);
                    } else {
                        assert(before[a].dep.name != shown.dep.name);
                    }
                }
            },
        }
    }

    /// Walks from the node at `at`: marks it, walks each dependency that is
    /// not marked yet, then places the node behind them.
    fn visit(&self, at: usize, visited: &mut Vec<bool>, order: &mut Vec<usize>)
        requires
            at < self.entries().len(),
            walk_inv(self.entries(), old(visited)@, old(order)@),
            !old(visited)@[at as int],
            open_nodes_reach(self.entries(), old(visited)@, old(order)@, at as int),
        ensures
            walk_inv(self.entries(), final(visited)@, final(order)@),
            old(order)@.len() <= final(order)@.len(),
            old(order)@ == final(order)@.take(old(order)@.len() as int),
            forall|i: int| 0 <= i < old(visited)@.len() && old(visited)@[i] ==> final(visited)@[i],
            forall|i: int|
                0 <= i < final(visited)@.len() && #[trigger] final(visited)@[i] && !old(visited)@[i]
                    ==> final(order)@.contains(i as usize),
            forall|p: int|
                old(order)@.len() <= p < final(order)@.len() ==> !old(visited)@[(
                #[trigger] final(order)@[p]) as int],
            final(visited)@[at as int],
            final(order)@.len() + unvisited(final(visited)@) == old(order)@.len() + unvisited(
                old(visited)@,
            ),
        decreases unvisited(old(visited)@),
    {
        let ghost nodes = self.entries();
        let ghost visited0 = visited@;
        let ghost order0 = order@;
        let ghost me = nodes[at as int].dep.name;
        proof {
            lemma_mark(visited0, at as int);
        }
        visited.set(at, true);
        assert(order@.take(order@.len() as int) == order@);
        let node = &self.nodes[at];
        assert(node@ == nodes[at as int]);
        let mut k: usize = 0;
        while k < node.dependencies.len()
            invariant
                k <= node.dependencies.len(),
                nodes == self.entries(),
                at < nodes.len(),
                node@ == nodes[at as int],
                me == nodes[at as int].dep.name,
                visited0 == old(visited)@,
                visited0.len() == nodes.len(),
                !visited0[at as int],
                walk_inv(nodes, visited0, order0),
                open_nodes_reach(nodes, visited0, order0, at as int),
                walk_inv(nodes, visited@, order@),
                visited@[at as int],
                order0.len() <= order@.len(),
                order0 == order@.take(order0.len() as int),
                forall|i: int| 0 <= i < visited0.len() && visited0[i] ==> visited@[i],
                forall|i: int|
                    0 <= i < visited@.len() && #[trigger] visited@[i] && !visited0[i] && i != at
                        ==> order@.contains(i as usize),
                forall|p: int|
                    order0.len() <= p < order@.len() ==> !visited0[(#[trigger] order@[p]) as int]
                        && order@[p] != at,
                order@.len() + unvisited(visited@) + 1 == order0.len() + unvisited(visited0),
                forall|j: int|
                    0 <= j < k ==> dep_settled(
                        nodes,
                        order@,
                        order@.len() as int,
                        at as int,
                        #[trigger] nodes[at as int].dependencies[j],
                    ),
            decreases node.dependencies.len() - k,
        {
            let ghost name = nodes[at as int].dependencies[k as int];
            let ghost order1 = order@;
            let ghost visited1 = visited@;
            assert(node.dependencies[k as int]@ == name);
            match self.index_of(&node.dependencies[k]) {
                Some(j) => {
                    if !visited[j] {
                        proof {
                            assert(nodes[at as int].dependencies.contains(name));
                            assert(edge(nodes, me, name));
                            assert forall|g: int|
                                0 <= g < nodes.len() && #[trigger] visited1[g] && !order1.contains(
                                    g as usize,
                                ) implies reaches(nodes, nodes[g].dep.name, name) by {
                                if g == at {
                                    lemma_reaches_self(nodes, me);
                                } else {
                                    if !visited0[g] {
                                        assert(order1.contains(g as usize));
                                    }
                                    if order0.contains(g as usize) {
                                        let q = choose|q: int|
                                            0 <= q < order0.len() && order0[q] == g as usize;
                                        assert(order1[q] == order0[q]);
                                        assert(order1.contains(g as usize));
                                    }
                                    assert(reaches(nodes, nodes[g].dep.name, me));
                                }
                                lemma_reaches_step(nodes, nodes[g].dep.name, me, name);
                            }
                        }
                        self.visit(j, visited, order);
                        proof {
                            let order2 = order@;
                            assert(order0 == order2.take(order0.len() as int)) by {
                                assert forall|q: int| 0 <= q < order0.len() implies order0[q]
                                    == order2[q] by {
                                    assert(order0[q] == order1[q]);
                                    assert(order1[q] == order2[q]);
                                }
                            }
                            assert forall|i: int|
                                0 <= i < visited@.len() && #[trigger] visited@[i] && !visited0[i] && i
                                    != at implies order2.contains(i as usize) by {
                                if visited1[i] {
                                    let q = choose|q: int|
                                        0 <= q < order1.len() && order1[q] == i as usize;
                                    assert(order2[q] == order1[q]);
                                }
                            }
                            assert forall|p: int| order0.len() <= p < order2.len() implies !visited0[(
                            #[trigger] order2[p]) as int] && order2[p] != at by {
                                if p < order1.len() {
                                    assert(order2[p] == order1[p]);
                                }
                            }
                            assert(order2.contains(j));
                            let q = choose|q: int| 0 <= q < order2.len() && order2[q] == j;
                            assert(placed(nodes, order2, order2.len() as int, name));
                            assert forall|j2: int| 0 <= j2 < k implies dep_settled(
                                nodes,
                                order2,
                                order2.len() as int,
                                at as int,
                                #[trigger] nodes[at as int].dependencies[j2],
                            ) by {
                                let d = nodes[at as int].dependencies[j2];
                                assert(dep_settled(nodes, order1, order1.len() as int, at as int, d));
                                if has_name(nodes, d) && placed(
                                    nodes,
                                    order1,
                                    order1.len() as int,
                                    d,
                                ) {
                                    lemma_placed_grows(
                                        nodes,
                                        order1,
                                        order2,
                                        order1.len() as int,
                                        order2.len() as int,
                                        d,
                                    );
                                }
                            }
                        }
                    } else {
                        proof {
                            if order1.contains(j) {
                                let q = choose|q: int| 0 <= q < order1.len() && order1[q] == j;
                                assert(placed(nodes, order1, order1.len() as int, name));
                            } else if j == at {
                                lemma_reaches_self(nodes, me);
                            } else {
                                if !visited0[j as int] {
                                    assert(order1.contains(j));
                                }
                                if order0.contains(j) {
                                    let q = choose|q: int| 0 <= q < order0.len() && order0[q] == j;
                                    assert(order1[q] == order0[q]);
                                    assert(order1.contains(j));
                                }
                                assert(reaches(nodes, nodes[j as int].dep.name, me));
                            }
                        }
                    }
                },
                None => {},
            }
            assert(dep_settled(nodes, order@, order@.len() as int, at as int, name));
            k += 1;
        }
        let ghost order1 = order@;
        proof {
            assert(!order1.contains(at)) by {
                if order1.contains(at) {
                    let q = choose|q: int| 0 <= q < order1.len() && order1[q] == at;
                    if q < order0.len() {
                        assert(order0[q] == order1[q]);
                    }
                }
            }
        }
        order.push(at);
        proof {
            let order2 = order@;
            assert(order1 == order2.take(order1.len() as int));
            assert(order0 == order2.take(order0.len() as int));
            assert forall|p: int| 0 <= p < order2.len() implies #[trigger] settled(nodes, order2, p) by {
                if p < order1.len() {
                    assert(settled(nodes, order1, p));
                    lemma_settled_grows(nodes, order1, order2, p);
                } else {
                    assert(order2[p] == at);
                    assert forall|j: int| 0 <= j < nodes[at as int].dependencies.len() implies dep_settled(
                        nodes,
                        order2,
                        p,
                        at as int,
                        #[trigger] nodes[at as int].dependencies[j],
                    ) by {
                        let d = nodes[at as int].dependencies[j];
                        assert(dep_settled(nodes, order1, order1.len() as int, at as int, d));
                        if has_name(nodes, d) && placed(nodes, order1, order1.len() as int, d) {
                            lemma_placed_grows(nodes, order1, order2, p, p, d);
                        }
                    }
                }
            }
            assert forall|p: int, q: int| 0 <= p < q < order2.len() implies (#[trigger] order2[p]) != (
            #[trigger] order2[q]) by {
                if q < order1.len() {
                    assert(order1[p] != order1[q]);
                } else {
                    assert(order2[p] == order1[p]);
                    assert(order1.contains(order1[p]));
                }
            }
            assert forall|i: int|
                0 <= i < visited@.len() && #[trigger] visited@[i] && !visited0[i] implies order2.contains(
                i as usize,
            ) by {
                if i == at {
                    assert(order2[order1.len() as int] == at);
                } else {
                    let q = choose|q: int| 0 <= q < order1.len() && order1[q] == i as usize;
                    assert(order2[q] == order1[q]);
                }
            }
            assert forall|p: int| order0.len() <= p < order2.len() implies !visited0[(
            #[trigger] order2[p]) as int] by {
                if p < order1.len() {
                    assert(order2[p] == order1[p]);
                }
            }
        }
    }

    /// The nodes in an order in which they can be built: each one behind the
    /// nodes it depends on. Where dependencies run in a circle no such order
    /// exists; the nodes on the circle then come out in the order in which the
    /// walk leaves them.
    pub fn topological_order(&self) -> (order: Vec<&DepNode>)
        requires
            self.wf(),
        ensures
            is_build_order(self.entries(), node_views(order@)),
    {
        let ghost nodes = self.entries();
        let n = self.nodes.len();
        let mut visited: Vec<bool> = Vec::new();
        while visited.len() < n
            invariant
                visited.len() <= n,
                forall|i: int| 0 <= i < visited.len() ==> !visited@[i],
            decreases n - visited.len(),
        {
            visited.push(false);
        }
        let mut indices: Vec<usize> = Vec::new();
        proof {
            lemma_unvisited_extremes(visited@);
        }
        let mut i: usize = 0;
        while i < n
            invariant
                i <= n,
                n == nodes.len(),
                nodes == self.entries(),
                walk_inv(nodes, visited@, indices@),
                forall|g: int| 0 <= g < n && #[trigger] visited@[g] ==> indices@.contains(g as usize),
                forall|g: int| 0 <= g < i ==> visited@[g],
                indices@.len() + unvisited(visited@) == n,
            decreases n - i,
        {
            if !visited[i] {
                let ghost before = indices@;
                let ghost marks = visited@;
                self.visit(i, &mut visited, &mut indices);
                proof {
                    assert forall|g: int| 0 <= g < n && #[trigger] visited@[g] implies indices@.contains(
                        g as usize,
                    ) by {
                        if marks[g] {
                            let q = choose|q: int| 0 <= q < before.len() && before[q] == g as usize;
                            assert(indices@[q] == before[q]);
                        }
                    }
                }
            }
            i += 1;
        }
        proof {
            lemma_unvisited_extremes(visited@);
        }
        let mut order: Vec<&DepNode> = Vec::new();
        let mut p: usize = 0;
        while p < n
            invariant
                p <= n,
                n == nodes.len(),
                n == indices@.len(),
                nodes == self.entries(),
                walk_inv(nodes, visited@, indices@),
                order@.len() == p,
                forall|q: int| 0 <= q < p ==> (#[trigger] order@[q])@ == nodes[indices@[q] as int],
            decreases n - p,
        {
            order.push(&self.nodes[indices[p]]);
            p += 1;
        }
        proof {
            let out = node_views(order@);
            assert forall|q: int| 0 <= q < out.len() implies nodes.contains(#[trigger] out[q]) by {
                assert(out[q] == nodes[indices@[q] as int]);
            }
            assert forall|a: int, b: int| 0 <= a < b < out.len() implies (#[trigger] out[a]).dep.name
                != (#[trigger] out[b]).dep.name by {
                let x = indices@[a] as int;
                let y = indices@[b] as int;
                assert(indices@[a] != indices@[b]);
                assert(out[a] == nodes[x] && out[b] == nodes[y]);
                if x < y {
                    assert(nodes[x].dep.name != nodes[y].dep.name);
                } else {
                    assert(nodes[y].dep.name != nodes[x].dep.name);
                }
            }
            assert forall|a: int, k: int|
                0 <= a < out.len() && 0 <= k < out[a].dependencies.len() && has_name(
                    nodes,
                    #[trigger] out[a].dependencies[k],
                ) implies built_before(out, a, out[a].dependencies[k]) || reaches(
                nodes,
                out[a].dependencies[k],
                out[a].dep.name,
            ) by {
                let at = indices@[a] as int;
                let d = out[a].dependencies[k];
                assert(out[a] == nodes[at]);
                assert(settled(nodes, indices@, a));
                assert(dep_settled(nodes, indices@, a, at, nodes[at].dependencies[k]));
                if placed(nodes, indices@, a, d) {
                    let q = choose|q: int|
                        0 <= q < a && q < indices@.len() && (#[trigger] indices@[q]) < nodes.len()
                            && nodes[indices@[q] as int].dep.name == d;
                    assert(out[q] == nodes[indices@[q] as int]);
                    assert(built_before(out, a, d));
                }
            }
        }
        order
    }
}

} // verus!
