use module_reach::dependency_graph_store::{try_package_root, DependencyGraphStore};
use module_reach::module::Module;
use module_reach::tsconfig::TSConfig;

fn chars(s: &str) -> Vec<char> {
    s.chars().collect()
}

fn text(v: &Vec<char>) -> String {
    v.iter().collect()
}

fn empty_config() -> TSConfig {
    TSConfig { base_url: None, paths: None }
}

#[test]
fn module_identity_is_the_module_id() {
    let a = Module { path_id: 0, module_id: 5 };
    let b = Module { path_id: 1, module_id: 5 };
    let c = Module { path_id: 0, module_id: 6 };
    assert_eq!(a, b, "two spellings of one module compare equal");
    assert_ne!(a, c, "distinct module ids compare unequal");
}

#[test]
fn path_ids_are_dense_and_round_trip() {
    let files = vec![chars("/r/a.ts"), chars("/r/b.ts")];
    let mut store = DependencyGraphStore::new(&files, &empty_config());
    // the scanned files keep their dense ids
    assert_eq!(store.try_get_id_for_path(&chars("/r/a.ts")), Some(0));
    assert_eq!(store.try_get_id_for_path(&chars("/r/b.ts")), Some(1));
    // interning a fresh path assigns the next id and reads back unchanged
    let id = store.get_id_for_path(&chars("/r/new.ts"));
    assert_eq!(text(&store.get_path_for_id(id)), "/r/new.ts");
    let again = store.get_id_for_path(&chars("/r/new.ts"));
    assert_eq!(id, again);
}

#[test]
fn canonical_and_stripped_aliases_resolve() {
    let files = vec![chars("/r/a.ts")];
    let store = DependencyGraphStore::new(&files, &empty_config());
    let by_canonical = store.try_get_module_for_path(&chars("/r/a.ts")).unwrap();
    let by_stripped = store.try_get_module_for_path(&chars("/r/a")).unwrap();
    assert_eq!(by_canonical.module_id, 0);
    assert_eq!(by_stripped.module_id, 0);
    assert!(store.try_get_module_for_path(&chars("/r/missing")).is_none());
}

#[test]
fn extension_precedence_picks_ts_over_js() {
    let files = vec![chars("/r/x.js"), chars("/r/x.ts")];
    let store = DependencyGraphStore::new(&files, &empty_config());
    let winner = store.try_get_module_for_path(&chars("/r/x")).unwrap();
    assert_eq!(winner.module_id, 1, "x.ts must win the alias /r/x");
}

#[test]
fn sibling_beats_index_for_parent_alias() {
    let files = vec![chars("/r/foo/index.ts"), chars("/r/foo.ts")];
    let store = DependencyGraphStore::new(&files, &empty_config());
    let winner = store.try_get_module_for_path(&chars("/r/foo")).unwrap();
    assert_eq!(winner.module_id, 1, "/r/foo.ts must win over /r/foo/index.ts");
}

#[test]
fn index_file_importable_through_parent() {
    let files = vec![chars("/r/b/index.ts")];
    let store = DependencyGraphStore::new(&files, &empty_config());
    let m = store.try_get_module_for_path(&chars("/r/b")).unwrap();
    assert_eq!(m.module_id, 0);
}

#[test]
fn base_url_aliases_are_registered() {
    let files = vec![chars("/r/src/util/helper.ts")];
    let config = TSConfig { base_url: Some(chars("/r/src")), paths: None };
    let store = DependencyGraphStore::new(&files, &config);
    assert!(store.try_get_module_for_path(&chars("util/helper")).is_some());
    assert!(store.try_get_module_for_path(&chars("util/helper.ts")).is_some());
}

#[test]
fn ties_fall_to_the_lower_module_id() {
    // both files propose the alias /r/x with the same extension rank
    let files = vec![chars("/r/x/index.ts"), chars("/r/x/index.tsx")];
    let store = DependencyGraphStore::new(&files, &empty_config());
    let winner = store.try_get_module_for_path(&chars("/r/x")).unwrap();
    assert_eq!(winner.module_id, 0, "index.ts outranks index.tsx");
}

#[test]
fn package_roots() {
    assert_eq!(try_package_root(&chars("lodash")).map(|v| text(&v)), Some("lodash".to_string()));
    assert_eq!(
        try_package_root(&chars("lodash/map")).map(|v| text(&v)),
        Some("lodash".to_string())
    );
    assert_eq!(
        try_package_root(&chars("@scope/pkg/sub")).map(|v| text(&v)),
        Some("@scope/pkg".to_string())
    );
    assert_eq!(
        try_package_root(&chars("@scope/pkg")).map(|v| text(&v)),
        Some("@scope/pkg".to_string())
    );
    assert!(try_package_root(&chars("@scope")).is_none());
    assert!(try_package_root(&chars("/abs/path")).is_none());
    assert!(try_package_root(&chars("")).is_none());
}

#[test]
fn external_packages_deduplicate_on_their_root() {
    let files = vec![chars("/r/a.ts")];
    let mut store = DependencyGraphStore::new(&files, &empty_config());
    let first = store.add_node_module(&chars("lodash/map"));
    let second = store.add_node_module(&chars("lodash/fp"));
    assert_eq!(first.module_id, second.module_id);
    assert_eq!(text(&store.get_path_for_module(&first)), "lodash");
    // the deep spelling now resolves directly
    let deep = store.try_get_module_for_path(&chars("lodash/map")).unwrap();
    assert_eq!(deep.module_id, first.module_id);
}

#[test]
fn scoped_external_package_keeps_two_segments() {
    let files = vec![chars("/r/a.ts")];
    let mut store = DependencyGraphStore::new(&files, &empty_config());
    let m = store.add_node_module(&chars("@scope/pkg/sub"));
    assert_eq!(text(&store.get_path_for_module(&m)), "@scope/pkg");
}

#[test]
fn alias_listing_holds_every_spelling() {
    let files = vec![chars("/r/a.ts")];
    let store = DependencyGraphStore::new(&files, &empty_config());
    let pairs: Vec<(String, String)> = store
        .aliases()
        .iter()
        .map(|(alias, target)| (text(alias), text(target)))
        .collect();
    assert!(pairs.contains(&("/r/a.ts".to_string(), "/r/a.ts".to_string())));
    assert!(pairs.contains(&("/r/a".to_string(), "/r/a.ts".to_string())));
    assert_eq!(pairs.len(), 2);
}
