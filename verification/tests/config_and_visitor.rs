use module_reach::cli::{is_quit_input, parse_direction_input, CliDirection};
use module_reach::import_visitor::{
    CallLikeArgument, CallLikeKind, ImportVisitor, VisitorDiagnostic,
};
use module_reach::module::Direction;
use module_reach::tsconfig::{merge_extended, normalize_compiler_options, TSConfig, TsconfigError};

fn chars(s: &str) -> Vec<char> {
    s.chars().collect()
}

fn text(v: &Vec<char>) -> String {
    v.iter().collect()
}

#[test]
fn base_url_is_joined_and_cleaned() {
    let config = normalize_compiler_options(&chars("/proj"), &Some(chars("./x/../src")), &None)
        .expect("well-formed options");
    assert_eq!(config.base_url.map(|b| text(&b)), Some("/proj/src".to_string()));
    assert!(config.paths.is_none());
}

#[test]
fn absolute_base_url_replaces_the_directory() {
    let config = normalize_compiler_options(&chars("/proj"), &Some(chars("/elsewhere//src")), &None)
        .expect("well-formed options");
    assert_eq!(config.base_url.map(|b| text(&b)), Some("/elsewhere/src".to_string()));
}

#[test]
fn path_mappings_resolve_under_the_raw_base() {
    let raw_paths = Some(vec![(chars("lib"), vec![chars("./vendor/lib")])]);
    let config = normalize_compiler_options(&chars("/proj"), &Some(chars("/proj/src")), &raw_paths)
        .expect("well-formed options");
    let mappings = config.paths.unwrap();
    assert_eq!(mappings.len(), 1);
    assert_eq!(text(&mappings[0].0), "lib");
    assert_eq!(text(&mappings[0].1), "/proj/src/vendor/lib");
}

#[test]
fn empty_and_multiple_path_mappings_are_refused() {
    let none = Some(vec![(chars("k"), vec![])]);
    assert_eq!(
        normalize_compiler_options(&chars("/proj"), &None, &none).unwrap_err(),
        TsconfigError::EmptyPathMapping { key: chars("k") }
    );
    let many = Some(vec![(chars("k"), vec![chars("a"), chars("b")])]);
    assert_eq!(
        normalize_compiler_options(&chars("/proj"), &None, &many).unwrap_err(),
        TsconfigError::MultiplePathMappings { key: chars("k") }
    );
}

#[test]
fn extends_merging_prefers_the_child() {
    let child = TSConfig { base_url: Some(chars("/child")), paths: None };
    let parent = TSConfig {
        base_url: Some(chars("/parent")),
        paths: Some(vec![(chars("k"), chars("/parent/k"))]),
    };
    let merged = merge_extended(child, parent);
    assert_eq!(merged.base_url.map(|b| text(&b)), Some("/child".to_string()));
    assert_eq!(merged.paths.unwrap().len(), 1);
}

#[test]
fn visitor_collects_string_arguments() {
    let mut visitor = ImportVisitor::new();
    visitor.record_call_like(
        CallLikeKind::Import,
        1,
        Some(CallLikeArgument::StringLiteral(chars("./b"))),
    );
    assert_eq!(visitor.errors.len(), 0);
    assert_eq!(visitor.dependencies.len(), 1);
    assert_eq!(text(&visitor.dependencies[0]), "./b");
}

#[test]
fn dynamic_import_yields_one_diagnostic_and_no_edge() {
    let mut visitor = ImportVisitor::new();
    visitor.record_call_like(CallLikeKind::Import, 1, Some(CallLikeArgument::Dynamic));
    assert_eq!(visitor.dependencies.len(), 0);
    assert_eq!(visitor.errors.len(), 1);
    assert!(matches!(
        visitor.errors[0],
        VisitorDiagnostic::DynamicArgument { kind: CallLikeKind::Import }
    ));
}

#[test]
fn wrong_arity_and_non_string_arguments() {
    let mut visitor = ImportVisitor::new();
    visitor.record_call_like(CallLikeKind::Require, 2, Some(CallLikeArgument::Dynamic));
    visitor.record_call_like(
        CallLikeKind::Require,
        1,
        Some(CallLikeArgument::NonStringLiteral(chars("Number"))),
    );
    visitor.record_call_like(
        CallLikeKind::Import,
        1,
        Some(CallLikeArgument::Other(chars("Call Expression"))),
    );
    assert_eq!(visitor.dependencies.len(), 0);
    assert_eq!(visitor.errors.len(), 3);
    assert!(matches!(
        visitor.errors[0],
        VisitorDiagnostic::WrongArgumentCount { kind: CallLikeKind::Require, count: 2 }
    ));
    assert!(matches!(
        visitor.errors[1],
        VisitorDiagnostic::NonStringLiteralArgument { kind: CallLikeKind::Require, .. }
    ));
    assert!(matches!(
        visitor.errors[2],
        VisitorDiagnostic::NonLiteralArgument { kind: CallLikeKind::Import, .. }
    ));
}

#[test]
fn visitor_records_plain_dependencies() {
    let mut visitor = ImportVisitor::new();
    visitor.add_dependency(chars("./a"));
    visitor.add_dependency(chars("lodash"));
    assert_eq!(visitor.dependencies.len(), 2);
    assert_eq!(text(&visitor.dependencies[1]), "lodash");
    assert_eq!(visitor.errors.len(), 0);
}

#[test]
fn direction_prompt_answers() {
    assert_eq!(parse_direction_input(&chars("0")), Some(CliDirection::Dependencies));
    assert_eq!(parse_direction_input(&chars("dependencies")), Some(CliDirection::Dependencies));
    assert_eq!(parse_direction_input(&chars("1")), Some(CliDirection::Dependents));
    assert_eq!(parse_direction_input(&chars("dependents")), Some(CliDirection::Dependents));
    assert_eq!(parse_direction_input(&chars("sideways")), None);
    assert_eq!(parse_direction_input(&chars("")), None);
}

#[test]
fn direction_mapping_and_quit() {
    assert_eq!(CliDirection::Dependencies.direction(), Direction::Outgoing);
    assert_eq!(CliDirection::Dependents.direction(), Direction::Incoming);
    assert!(is_quit_input(&chars("q")));
    assert!(!is_quit_input(&chars("quit")));
}
