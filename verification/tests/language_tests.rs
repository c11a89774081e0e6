use fode::language::{collect_source_files, detect_language, path_counts_for, DetectedLanguage};

fn paths(items: &[&str]) -> Vec<String> {
    items.iter().map(|s| s.to_string()).collect()
}

#[test]
fn names_of_languages() {
    assert_eq!(DetectedLanguage::Go.name(), "Go");
    assert_eq!(DetectedLanguage::Rust.name(), "Rust");
    assert_eq!(DetectedLanguage::Python.name(), "Python");
    assert_eq!(DetectedLanguage::JavaScript.name(), "JavaScript");
}

#[test]
fn extensions_of_languages() {
    assert_eq!(DetectedLanguage::Go.extensions(), &["go"]);
    assert_eq!(DetectedLanguage::Rust.extensions(), &["rs"]);
    assert_eq!(DetectedLanguage::Python.extensions(), &["py"]);
    assert_eq!(DetectedLanguage::JavaScript.extensions(), &["js", "jsx", "ts", "tsx"]);
    assert!(DetectedLanguage::JavaScript.has_extension("tsx"));
    assert!(!DetectedLanguage::JavaScript.has_extension("go"));
    assert!(!DetectedLanguage::Go.has_extension("GO"));
}

#[test]
fn grammars_are_at_hand_for_every_language() {
    for language in [
        DetectedLanguage::Go,
        DetectedLanguage::Rust,
        DetectedLanguage::Python,
        DetectedLanguage::JavaScript,
    ] {
        assert!(language.tree_sitter_language().node_kind_count() > 0);
    }
}

#[test]
fn the_language_with_most_files_is_detected() {
    let found = paths(&["a.go", "b.rs", "c.rs", "d.py", "README.md"]);
    assert_eq!(detect_language(&found), Some(DetectedLanguage::Rust));
    let found = paths(&["x/a.ts", "x/b.tsx", "x/c.js", "x/d.jsx", "a.go", "b.go", "c.go"]);
    assert_eq!(detect_language(&found), Some(DetectedLanguage::JavaScript));
}

#[test]
fn ties_go_to_the_language_that_comes_first() {
    assert_eq!(
        detect_language(&paths(&["a.go", "b.rs", "c.py", "d.js"])),
        Some(DetectedLanguage::Go)
    );
    assert_eq!(
        detect_language(&paths(&["b.rs", "c.py", "d.js"])),
        Some(DetectedLanguage::Rust)
    );
    assert_eq!(
        detect_language(&paths(&["c.py", "d.js"])),
        Some(DetectedLanguage::Python)
    );
    assert_eq!(detect_language(&paths(&["d.ts"])), Some(DetectedLanguage::JavaScript));
}

#[test]
fn no_language_is_detected_without_source_files() {
    assert_eq!(detect_language(&paths(&[])), None);
    assert_eq!(detect_language(&paths(&["README.md", "Makefile", ".go", "go"])), None);
}

#[test]
fn detection_counts_hidden_and_vendored_files_too() {
    let found = paths(&["vendor/a.go", ".cache/b.go", "main.py"]);
    assert_eq!(detect_language(&found), Some(DetectedLanguage::Go));
}

#[test]
fn source_files_are_collected_in_order_without_excluded_directories() {
    let files = paths(&[
        "/repo/b/b.go",
        "/repo/vendor/v.go",
        "/repo/a/a.go",
        "/repo/a/a_test.rs",
        "/repo/.git/hooks/x.go",
        "/repo/node_modules/m/i.go",
        "/repo/target/t.go",
        "/repo/pkg/testdata/d.go",
        "/repo/main.go",
    ]);
    assert_eq!(
        collect_source_files(&files, &DetectedLanguage::Go),
        paths(&["/repo/b/b.go", "/repo/a/a.go", "/repo/main.go"])
    );
    assert_eq!(
        collect_source_files(&files, &DetectedLanguage::Rust),
        paths(&["/repo/a/a_test.rs"])
    );
    assert_eq!(collect_source_files(&files, &DetectedLanguage::Python), paths(&[]));
}

#[test]
fn a_hidden_segment_in_the_root_excludes_every_file() {
    let files = paths(&["/home/u/.work/repo/a.go", ".cfg/repo/b.go"]);
    assert_eq!(collect_source_files(&files, &DetectedLanguage::Go), paths(&[]));
}

#[test]
fn a_repository_opened_as_dot_or_dot_dot_keeps_its_files() {
    let files = paths(&["./a.go", "./pkg/b.go", "../x/c.go", "./vendor/v.go", "./.git/g.go"]);
    assert_eq!(
        collect_source_files(&files, &DetectedLanguage::Go),
        paths(&["./a.go", "./pkg/b.go", "../x/c.go"])
    );
}

#[test]
fn paths_count_by_their_extension() {
    assert!(path_counts_for(&DetectedLanguage::Go, "a/b.go"));
    assert!(!path_counts_for(&DetectedLanguage::Go, "a/b.go.bak"));
    assert!(!path_counts_for(&DetectedLanguage::Go, "a/go"));
    assert!(path_counts_for(&DetectedLanguage::JavaScript, "x.jsx"));
}
