use module_reach::dependency_graph::{DependencyGraph, QueryError, ResolveError};
use module_reach::module::Direction;
use module_reach::tsconfig::TSConfig;

fn chars(s: &str) -> Vec<char> {
    s.chars().collect()
}

fn text(v: &Vec<char>) -> String {
    v.iter().collect()
}

fn empty_config() -> TSConfig {
    TSConfig { base_url: None, paths: None }
}

fn build(
    files: &[&str],
    imports: &[(&str, &[&str])],
) -> DependencyGraph {
    let paths: Vec<Vec<char>> = files.iter().map(|f| chars(f)).collect();
    let mut graph = DependencyGraph::new(&paths, &empty_config());
    let raw: Vec<(Vec<char>, Vec<Vec<char>>)> = imports
        .iter()
        .map(|(owner, deps)| (chars(owner), deps.iter().map(|d| chars(d)).collect()))
        .collect();
    let errors = graph.resolve_imports(&raw).expect("resolution must succeed");
    assert!(errors.is_none(), "unexpected resolution errors");
    graph
}

fn reachable(graph: &DependencyGraph, seed: &str, direction: Direction, depth: u32) -> Vec<String> {
    let mut r: Vec<String> = graph
        .get_all_dependencies(&chars(seed), direction, depth)
        .expect("query must succeed")
        .iter()
        .map(text)
        .collect();
    r.sort();
    r
}

fn sorted(items: &[&str]) -> Vec<String> {
    let mut r: Vec<String> = items.iter().map(|s| s.to_string()).collect();
    r.sort();
    r
}

#[test]
fn relative_and_index_resolution() {
    let graph = build(&["/r/a.ts", "/r/b/index.ts"], &[("/r/a.ts", &["./b"])]);
    assert_eq!(
        reachable(&graph, "/r/a.ts", Direction::Outgoing, 0),
        sorted(&["/r/a.ts", "/r/b/index.ts"])
    );
}

#[test]
fn extension_precedence_prefers_ts() {
    let graph = build(&["/r/a.ts", "/r/x.ts", "/r/x.js"], &[("/r/a.ts", &["./x"])]);
    assert_eq!(
        reachable(&graph, "/r/a.ts", Direction::Outgoing, 0),
        sorted(&["/r/a.ts", "/r/x.ts"])
    );
}

#[test]
fn sibling_beats_index() {
    let graph = build(
        &["/r/a.ts", "/r/foo.ts", "/r/foo/index.ts"],
        &[("/r/a.ts", &["./foo"])],
    );
    assert_eq!(
        reachable(&graph, "/r/a.ts", Direction::Outgoing, 0),
        sorted(&["/r/a.ts", "/r/foo.ts"])
    );
}

#[test]
fn external_package_dedup() {
    let graph = build(
        &["/r/a.ts", "/r/b.ts"],
        &[("/r/a.ts", &["lodash/map"]), ("/r/b.ts", &["lodash/fp"])],
    );
    assert_eq!(
        reachable(&graph, "/r/a.ts", Direction::Outgoing, 0),
        sorted(&["/r/a.ts", "lodash"])
    );
    // one external module: both importers reach it, and it alone reaches both
    assert_eq!(
        reachable(&graph, "lodash", Direction::Incoming, 0),
        sorted(&["/r/a.ts", "/r/b.ts", "lodash"])
    );
}

#[test]
fn scoped_external_package() {
    let graph = build(&["/r/a.ts"], &[("/r/a.ts", &["@scope/pkg/sub"])]);
    assert_eq!(
        reachable(&graph, "/r/a.ts", Direction::Outgoing, 0),
        sorted(&["/r/a.ts", "@scope/pkg"])
    );
}

#[test]
fn depth_bound_on_a_chain() {
    let graph = build(
        &["/r/a.ts", "/r/b.ts", "/r/c.ts", "/r/d.ts"],
        &[
            ("/r/a.ts", &["./b"]),
            ("/r/b.ts", &["./c"]),
            ("/r/c.ts", &["./d"]),
        ],
    );
    assert_eq!(
        reachable(&graph, "/r/a.ts", Direction::Outgoing, 2),
        sorted(&["/r/a.ts", "/r/b.ts", "/r/c.ts"])
    );
    assert_eq!(
        reachable(&graph, "/r/a.ts", Direction::Outgoing, 0),
        sorted(&["/r/a.ts", "/r/b.ts", "/r/c.ts", "/r/d.ts"])
    );
}

#[test]
fn dependents_direction_on_a_chain() {
    let graph = build(
        &["/r/a.ts", "/r/b.ts", "/r/c.ts", "/r/d.ts"],
        &[
            ("/r/a.ts", &["./b"]),
            ("/r/b.ts", &["./c"]),
            ("/r/c.ts", &["./d"]),
        ],
    );
    assert_eq!(
        reachable(&graph, "/r/c.ts", Direction::Incoming, 0),
        sorted(&["/r/a.ts", "/r/b.ts", "/r/c.ts"])
    );
}

#[test]
fn depth_monotonicity_on_a_chain() {
    let graph = build(
        &["/r/a.ts", "/r/b.ts", "/r/c.ts", "/r/d.ts"],
        &[
            ("/r/a.ts", &["./b"]),
            ("/r/b.ts", &["./c"]),
            ("/r/c.ts", &["./d"]),
        ],
    );
    let k1 = reachable(&graph, "/r/a.ts", Direction::Outgoing, 1);
    let k2 = reachable(&graph, "/r/a.ts", Direction::Outgoing, 2);
    let unbounded = reachable(&graph, "/r/a.ts", Direction::Outgoing, 0);
    assert!(k1.iter().all(|p| k2.contains(p)));
    assert!(k2.iter().all(|p| unbounded.contains(p)));
}

#[test]
fn direction_duality_on_pairs() {
    let graph = build(
        &["/r/a.ts", "/r/b.ts", "/r/c.ts"],
        &[("/r/a.ts", &["./b"]), ("/r/b.ts", &["./c"])],
    );
    for u in ["/r/a.ts", "/r/b.ts", "/r/c.ts"] {
        for v in ["/r/a.ts", "/r/b.ts", "/r/c.ts"] {
            let forward = reachable(&graph, u, Direction::Outgoing, 0).contains(&v.to_string());
            let backward = reachable(&graph, v, Direction::Incoming, 0).contains(&u.to_string());
            assert_eq!(forward, backward, "duality broken for {u} and {v}");
        }
    }
}

#[test]
fn seed_always_in_result() {
    let graph = build(&["/r/a.ts", "/r/b.ts"], &[("/r/a.ts", &["./b"])]);
    for depth in [0, 1, 5] {
        for direction in [Direction::Outgoing, Direction::Incoming] {
            let r = reachable(&graph, "/r/b.ts", direction, depth);
            assert!(r.contains(&"/r/b.ts".to_string()));
        }
    }
}

#[test]
fn skipped_asset_contributes_nothing() {
    let paths = vec![chars("/r/a.ts")];
    let mut graph = DependencyGraph::new(&paths, &empty_config());
    let raw = vec![(chars("/r/a.ts"), vec![chars("./logo.png")])];
    let errors = graph.resolve_imports(&raw).expect("resolution must succeed");
    assert!(errors.is_none(), "a skipped asset must produce no error");
    assert_eq!(
        reachable(&graph, "/r/a.ts", Direction::Outgoing, 0),
        sorted(&["/r/a.ts"])
    );
}

#[test]
fn relative_miss_is_reported_with_the_tried_path() {
    let paths = vec![chars("/r/a.ts")];
    let mut graph = DependencyGraph::new(&paths, &empty_config());
    let raw = vec![(chars("/r/a.ts"), vec![chars("./missing")])];
    let errors = graph.resolve_imports(&raw).expect("resolution must succeed").unwrap();
    assert_eq!(errors.len(), 1);
    assert_eq!(text(&errors[0].0), "/r/a.ts");
    assert_eq!(errors[0].1.len(), 1);
    assert_eq!(text(&errors[0].1[0].dependency), "./missing");
    assert_eq!(text(&errors[0].1[0].tried), "/r/missing");
}

#[test]
fn cleaning_resolves_dot_segments() {
    let paths = vec![chars("/r/a.ts"), chars("/r/c.ts")];
    let mut graph = DependencyGraph::new(&paths, &empty_config());
    let raw = vec![(chars("/r/a.ts"), vec![chars("./b/../c")])];
    let errors = graph.resolve_imports(&raw).expect("resolution must succeed");
    assert!(errors.is_none());
    assert_eq!(
        reachable(&graph, "/r/a.ts", Direction::Outgoing, 0),
        sorted(&["/r/a.ts", "/r/c.ts"])
    );
}

#[test]
fn base_url_imports_resolve() {
    let paths = vec![chars("/r/src/app.ts"), chars("/r/src/util/helper.ts")];
    let config = TSConfig { base_url: Some(chars("/r/src")), paths: None };
    let mut graph = DependencyGraph::new(&paths, &config);
    let raw = vec![(chars("/r/src/app.ts"), vec![chars("util/helper")])];
    let errors = graph.resolve_imports(&raw).expect("resolution must succeed");
    assert!(errors.is_none());
    assert_eq!(
        reachable(&graph, "/r/src/app.ts", Direction::Outgoing, 0),
        sorted(&["/r/src/app.ts", "/r/src/util/helper.ts"])
    );
}

#[test]
fn malformed_package_name_is_fatal() {
    let paths = vec![chars("/r/a.ts")];
    let mut graph = DependencyGraph::new(&paths, &empty_config());
    let raw = vec![(chars("/r/a.ts"), vec![chars("@scope")])];
    match graph.resolve_imports(&raw) {
        Err(ResolveError::MalformedPackageName { dependency }) => {
            assert_eq!(text(&dependency), "@scope");
        }
        other => panic!("expected a malformed package name, got {:?}", other.is_ok()),
    }
}

#[test]
fn unknown_owner_is_fatal() {
    let paths = vec![chars("/r/a.ts")];
    let mut graph = DependencyGraph::new(&paths, &empty_config());
    let raw = vec![(chars("/r/ghost.ts"), vec![chars("./a")])];
    match graph.resolve_imports(&raw) {
        Err(ResolveError::UnknownOwner { path }) => {
            assert_eq!(text(&path), "/r/ghost.ts");
        }
        other => panic!("expected an unknown owner, got {:?}", other.is_ok()),
    }
}

#[test]
fn query_before_build_and_unknown_seed() {
    let paths = vec![chars("/r/a.ts")];
    let mut graph = DependencyGraph::new(&paths, &empty_config());
    assert_eq!(
        graph.get_all_dependencies(&chars("/r/a.ts"), Direction::Outgoing, 0).unwrap_err(),
        QueryError::NotBuilt
    );
    let raw: Vec<(Vec<char>, Vec<Vec<char>>)> = vec![(chars("/r/a.ts"), vec![])];
    graph.resolve_imports(&raw).expect("resolution must succeed");
    assert_eq!(
        graph.get_all_dependencies(&chars("/r/ghost.ts"), Direction::Outgoing, 0).unwrap_err(),
        QueryError::UnknownPath
    );
}

#[test]
fn declaration_files_lose_both_extensions() {
    let graph = build(&["/r/a.ts", "/r/t.d.ts"], &[("/r/a.ts", &["./t"])]);
    assert_eq!(
        reachable(&graph, "/r/a.ts", Direction::Outgoing, 0),
        sorted(&["/r/a.ts", "/r/t.d.ts"])
    );
}

#[test]
fn tsx_beats_declaration_file() {
    let graph = build(
        &["/r/a.ts", "/r/x.d.ts", "/r/x.tsx"],
        &[("/r/a.ts", &["./x"])],
    );
    assert_eq!(
        reachable(&graph, "/r/a.ts", Direction::Outgoing, 0),
        sorted(&["/r/a.ts", "/r/x.tsx"])
    );
}

#[test]
fn deep_external_spelling_is_reused() {
    let graph = build(
        &["/r/a.ts", "/r/b.ts"],
        &[("/r/a.ts", &["lodash/map"]), ("/r/b.ts", &["lodash/map"])],
    );
    assert_eq!(
        reachable(&graph, "lodash", Direction::Incoming, 0),
        sorted(&["/r/a.ts", "/r/b.ts", "lodash"])
    );
}
