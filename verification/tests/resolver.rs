use seastar::depman::graph::{Dep, DepGraph, DepSource};
use seastar::depman::resolver::{dep_config_file, parse_deps, resolve_and_fetch, Resolution};
use seastar::io::{Config, DepSpec, Options};

fn config_with(dependencies: Vec<(String, DepSpec)>) -> Config {
    Config {
        project_name: "p".to_string(),
        compiler: "gcc".to_string(),
        is_library: true,
        cpp_compiler: None,
        options: Options::default(),
        dependencies,
    }
}

fn simple(name: &str) -> (String, DepSpec) {
    (name.to_string(), DepSpec::Simple(format!("https://example.com/{}.git", name)))
}

fn config_naming(children: &[&str]) -> Config {
    config_with(children.iter().map(|c| simple(c)).collect())
}

fn dep(name: &str) -> Dep {
    Dep {
        name: name.to_string(),
        source: DepSource::Git { repo: format!("https://example.com/{}.git", name), tag: None },
    }
}

/// Runs a pass in which the dependency `name` carries the configuration
/// that `world` gives under `name`; a name that `world` lacks fails to
/// fetch. Returns the graph and the names in the order of their fetching.
fn resolve(roots: &[&str], world: &[(&str, Vec<&str>)]) -> (DepGraph, Vec<String>) {
    let roots: Vec<Dep> = roots.iter().map(|r| dep(r)).collect();
    let mut fetched = Vec::new();
    let mut state = resolve_and_fetch(&roots);
    loop {
        match state {
            Resolution::Fetch(pending) => {
                let name = pending.dep().name.clone();
                fetched.push(name.clone());
                state = match world.iter().find(|(n, _)| *n == name) {
                    Some((_, children)) => pending.loaded(&config_naming(children)),
                    None => pending.abandoned(),
                };
            }
            Resolution::Done(graph) => return (graph, fetched),
        }
    }
}

fn order_of(g: &DepGraph) -> Vec<String> {
    g.topological_order().iter().map(|n| n.dep.name.clone()).collect()
}

#[test]
fn parse_deps_reads_a_bare_url_as_a_repository() {
    let deps = parse_deps(&config_with(vec![("foo".to_string(), DepSpec::Simple("https://h/foo".to_string()))]));
    assert_eq!(deps.len(), 1);
    assert_eq!(deps[0].name, "foo");
    assert!(matches!(&deps[0].source, DepSource::Git { repo, tag: None } if repo == "https://h/foo"));
}

#[test]
fn parse_deps_reads_a_record_with_repository_and_tag() {
    let spec = DepSpec::Detailed {
        git: Some("https://h/foo".to_string()),
        tag: Some("v1.2".to_string()),
        path: None,
    };
    let deps = parse_deps(&config_with(vec![("foo".to_string(), spec)]));
    assert_eq!(deps.len(), 1);
    assert!(matches!(&deps[0].source, DepSource::Git { repo, tag: Some(t) } if repo == "https://h/foo" && t == "v1.2"));
}

#[test]
fn parse_deps_reads_a_record_with_a_path() {
    let spec = DepSpec::Detailed { git: None, tag: Some("ignored".to_string()), path: Some("../foo".to_string()) };
    let deps = parse_deps(&config_with(vec![("foo".to_string(), spec)]));
    assert_eq!(deps.len(), 1);
    assert_eq!(deps[0].name, "foo");
    assert!(matches!(&deps[0].source, DepSource::Path(p) if p == "../foo"));
}

#[test]
fn parse_deps_reads_repository_then_path_of_one_record() {
    let spec = DepSpec::Detailed {
        git: Some("https://h/foo".to_string()),
        tag: None,
        path: Some("../foo".to_string()),
    };
    let deps = parse_deps(&config_with(vec![("foo".to_string(), spec)]));
    assert_eq!(deps.len(), 2);
    assert_eq!(deps[0].name, "foo");
    assert_eq!(deps[1].name, "foo");
    assert!(matches!(&deps[0].source, DepSource::Git { tag: None, .. }));
    assert!(matches!(&deps[1].source, DepSource::Path(p) if p == "../foo"));
}

#[test]
fn parse_deps_reads_nothing_from_an_empty_record() {
    let spec = DepSpec::Detailed { git: None, tag: None, path: None };
    let deps = parse_deps(&config_with(vec![("foo".to_string(), spec), simple("bar")]));
    assert_eq!(deps.len(), 1);
    assert_eq!(deps[0].name, "bar");
    assert!(parse_deps(&config_with(Vec::new())).is_empty());
}

#[test]
fn parse_deps_keeps_the_order_of_the_entries() {
    let deps = parse_deps(&config_naming(&["z", "a", "m"]));
    let names: Vec<&str> = deps.iter().map(|d| d.name.as_str()).collect();
    assert_eq!(names, vec!["z", "a", "m"]);
}

#[test]
fn dep_config_file_lies_in_the_directory_of_the_dependency() {
    assert_eq!(dep_config_file(&dep("foo"), "deps/"), "deps//foo/Seastar.toml");
    assert_eq!(dep_config_file(&dep("foo"), "deps"), "deps/foo/Seastar.toml");
}

#[test]
fn no_dependencies_resolve_to_an_empty_graph() {
    let (graph, fetched) = resolve(&[], &[]);
    assert_eq!(graph.len(), 0);
    assert!(fetched.is_empty());
}

#[test]
fn chain_resolves_depth_first_and_builds_leaf_first() {
    let world = [("A", vec!["B"]), ("B", vec!["C"]), ("C", vec![])];
    let (graph, fetched) = resolve(&["A"], &world);
    assert_eq!(fetched, vec!["A", "B", "C"]);
    assert_eq!(graph.len(), 3);
    assert_eq!(graph.get(&"A".to_string()).unwrap().dependencies, vec!["B"]);
    assert_eq!(graph.get(&"B".to_string()).unwrap().dependencies, vec!["C"]);
    assert!(graph.get(&"C".to_string()).unwrap().dependencies.is_empty());
    assert_eq!(order_of(&graph), vec!["C", "B", "A"]);
}

#[test]
fn shared_dependency_is_fetched_once() {
    let world = [
        ("app1", vec!["base", "util"]),
        ("app2", vec!["util", "base"]),
        ("util", vec!["base"]),
        ("base", vec![]),
    ];
    let (graph, fetched) = resolve(&["app1", "app2", "base"], &world);
    assert_eq!(fetched, vec!["app1", "base", "util", "app2"]);
    assert_eq!(graph.len(), 4);
    assert_eq!(graph.get(&"app2".to_string()).unwrap().dependencies, vec!["util", "base"]);
    let order = order_of(&graph);
    assert_eq!(order, vec!["base", "util", "app1", "app2"]);
}

#[test]
fn repeated_root_is_fetched_once() {
    let (graph, fetched) = resolve(&["a", "a", "a"], &[("a", vec![])]);
    assert_eq!(fetched, vec!["a"]);
    assert_eq!(graph.len(), 1);
}

#[test]
fn first_source_of_a_name_wins() {
    let roots = vec![
        Dep { name: "x".to_string(), source: DepSource::Path("first".to_string()) },
        Dep { name: "x".to_string(), source: DepSource::Path("second".to_string()) },
    ];
    let mut state = resolve_and_fetch(&roots);
    let mut fetched = 0;
    let graph = loop {
        match state {
            Resolution::Fetch(pending) => {
                fetched += 1;
                state = pending.loaded(&config_naming(&[]));
            }
            Resolution::Done(graph) => break graph,
        }
    };
    assert_eq!(fetched, 1);
    assert!(matches!(&graph.get(&"x".to_string()).unwrap().dep.source, DepSource::Path(p) if p == "first"));
}

#[test]
fn cycle_ends_the_pass() {
    let world = [("a", vec!["b"]), ("b", vec!["a"])];
    let (graph, fetched) = resolve(&["a"], &world);
    assert_eq!(fetched, vec!["a", "b"]);
    assert_eq!(graph.get(&"a".to_string()).unwrap().dependencies, vec!["b"]);
    assert_eq!(graph.get(&"b".to_string()).unwrap().dependencies, vec!["a"]);
    let mut order = order_of(&graph);
    order.sort();
    assert_eq!(order, vec!["a", "b"]);
}

#[test]
fn dependency_names_of_a_node_keep_their_declared_order_and_repeats() {
    let world = [("a", vec!["c", "b", "c"]), ("b", vec![]), ("c", vec![])];
    let (graph, fetched) = resolve(&["a"], &world);
    assert_eq!(fetched, vec!["a", "c", "b"]);
    assert_eq!(graph.get(&"a".to_string()).unwrap().dependencies, vec!["c", "b", "c"]);
}

#[test]
fn every_named_dependency_becomes_a_node() {
    let world = [("a", vec!["b", "c"]), ("b", vec!["d"]), ("c", vec!["d"]), ("d", vec![])];
    let (graph, _) = resolve(&["a"], &world);
    for n in graph.topological_order() {
        for d in &n.dependencies {
            assert!(graph.contains(d), "{} of {}", d, n.dep.name);
        }
    }
}

#[test]
fn failed_fetch_leaves_siblings_resolved() {
    // `bad` cannot be fetched: the pass goes on, and `bad` stays a node
    // that the build will miss
    let world = [("good", vec!["leaf"]), ("leaf", vec![])];
    let (graph, fetched) = resolve(&["bad", "good"], &world);
    assert_eq!(fetched, vec!["bad", "good", "leaf"]);
    assert_eq!(graph.len(), 3);
    assert!(graph.get(&"bad".to_string()).unwrap().dependencies.is_empty());
    assert_eq!(order_of(&graph), vec!["bad", "leaf", "good"]);
}
