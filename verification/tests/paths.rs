use module_reach::file_system::{
    chars_eq, extension, file_name, has_skipped_ext, is_code_ext, is_declaration_file, join,
    parent_dir, starts_relative, stem_is_index, strip_alias, strip_base_prefix, sub_chars,
    Extensions,
};

fn chars(s: &str) -> Vec<char> {
    s.chars().collect()
}

fn text(v: &Vec<char>) -> String {
    v.iter().collect()
}

#[test]
fn file_name_takes_last_component() {
    assert_eq!(text(&file_name(&chars("/r/a/b.ts"))), "b.ts");
    assert_eq!(text(&file_name(&chars("b.ts"))), "b.ts");
    assert_eq!(text(&file_name(&chars("/r/a/"))), "");
}

#[test]
fn parent_dir_drops_last_component() {
    assert_eq!(text(&parent_dir(&chars("/r/a/b.ts"))), "/r/a");
    assert_eq!(text(&parent_dir(&chars("/b.ts"))), "/");
    assert_eq!(text(&parent_dir(&chars("b.ts"))), "");
}

#[test]
fn extension_reads_after_last_dot() {
    assert_eq!(extension(&chars("/r/a.ts")).map(|e| text(&e)), Some("ts".to_string()));
    assert_eq!(extension(&chars("/r/a.d.ts")).map(|e| text(&e)), Some("ts".to_string()));
    assert_eq!(extension(&chars("/r/.gitignore")).map(|e| text(&e)), None);
    assert_eq!(extension(&chars("/r/name")).map(|e| text(&e)), None);
}

#[test]
fn declaration_files_by_suffix() {
    assert!(is_declaration_file(&chars("/r/a.d.ts")));
    assert!(is_declaration_file(&chars("/r/a.d.mts")));
    assert!(is_declaration_file(&chars("/r/a.d.cts")));
    assert!(!is_declaration_file(&chars("/r/a.ts")));
    assert!(!is_declaration_file(&chars("/r/ad.ts")));
}

#[test]
fn index_stem_detection() {
    assert!(stem_is_index(&chars("/r/b/index.ts")));
    assert!(stem_is_index(&chars("index.js")));
    assert!(!stem_is_index(&chars("/r/b/index.d.ts")));
    assert!(!stem_is_index(&chars("/r/b/indexes.ts")));
}

#[test]
fn strip_alias_removes_supported_extensions() {
    assert_eq!(text(&strip_alias(&chars("/r/a.ts"))), "/r/a");
    assert_eq!(text(&strip_alias(&chars("/r/a.d.ts"))), "/r/a");
    assert_eq!(text(&strip_alias(&chars("/r/a.d.mts"))), "/r/a");
    assert_eq!(text(&strip_alias(&chars("/r/notes.txt"))), "/r/notes.txt");
    assert_eq!(text(&strip_alias(&chars("/r/dir"))), "/r/dir");
}

#[test]
fn extension_names() {
    assert_eq!(Extensions::TS, "ts");
    assert_eq!(Extensions::D_TS, "d.ts");
    assert_eq!(Extensions::TSX, "tsx");
    assert_eq!(Extensions::CTS, "cts");
    assert_eq!(Extensions::D_CTS, "d.cts");
    assert_eq!(Extensions::MTS, "mts");
    assert_eq!(Extensions::D_MTS, "d.mts");
    assert_eq!(Extensions::JS, "js");
    assert_eq!(Extensions::JSX, "jsx");
    assert_eq!(Extensions::CJS, "cjs");
    assert_eq!(Extensions::MJS, "mjs");
}

#[test]
fn code_extension_set() {
    for ext in ["ts", "tsx", "cts", "mts", "js", "jsx", "cjs", "mjs"] {
        assert!(is_code_ext(&chars(ext)), "{ext} should be a code extension");
    }
    assert!(!is_code_ext(&chars("json")));
    assert!(!is_code_ext(&chars("css")));
}

#[test]
fn skipped_extension_set() {
    for name in ["./logo.png", "a.css", "style.woff2", "x.json", "clip.webm", "v.vert"] {
        assert!(has_skipped_ext(&chars(name)), "{name} should be skipped");
    }
    assert!(!has_skipped_ext(&chars("./b")));
    assert!(!has_skipped_ext(&chars("./b.ts")));
    assert!(!has_skipped_ext(&chars("lodash/map")));
}

#[test]
fn relative_import_prefixes() {
    assert!(starts_relative(&chars("./b")));
    assert!(starts_relative(&chars("../b")));
    assert!(!starts_relative(&chars(".b")));
    assert!(!starts_relative(&chars("lodash")));
    assert!(!starts_relative(&chars("/abs")));
}

#[test]
fn join_is_lexical() {
    assert_eq!(text(&join(&chars("/r"), &chars("./b"))), "/r/./b");
    assert_eq!(text(&join(&chars("/r"), &chars("/abs"))), "/abs");
}

#[test]
fn strip_base_needs_full_component_prefix() {
    assert_eq!(
        strip_base_prefix(&chars("/r/src/a.ts"), &chars("/r/src")).map(|v| text(&v)),
        Some("a.ts".to_string())
    );
    assert_eq!(strip_base_prefix(&chars("/r/srcx/a.ts"), &chars("/r/src")).map(|v| text(&v)), None);
    assert_eq!(
        strip_base_prefix(&chars("/r/a.ts"), &chars("/")).map(|v| text(&v)),
        Some("r/a.ts".to_string())
    );
    assert_eq!(strip_base_prefix(&chars("/r/src"), &chars("/r/src")).map(|v| text(&v)), None);
}

#[test]
fn chars_eq_and_sub_chars() {
    assert!(chars_eq(&chars("abc"), &chars("abc")));
    assert!(!chars_eq(&chars("abc"), &chars("abd")));
    assert_eq!(text(&sub_chars(&chars("abcdef"), 2, 5)), "cde");
}
