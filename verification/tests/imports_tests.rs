use fode::imports::{
    get_go_module_name, import_path_to_dir, parse_go_imports, read_manifest_module,
    resolve_import_to_dir, resolve_imports,
};
use fode::language::DetectedLanguage;
use fode::syntax::parse_file;
use fode::table::TextMap;

fn imports_of(source: &str) -> TextMap {
    let tree = parse_file(source, &DetectedLanguage::Go).expect("a tree");
    parse_go_imports(source, &tree)
}

fn held(map: &TextMap, key: &str) -> Option<String> {
    map.get(key).cloned()
}

#[test]
fn a_single_import_is_named_by_its_last_segment() {
    let imports = imports_of("package a\n\nimport \"example.com/m/internal/x\"\n");
    assert_eq!(held(&imports, "x"), Some("example.com/m/internal/x".to_string()));
    assert!(imports.contains_key("x"));
    assert!(!imports.contains_key("internal"));
    assert_eq!(held(&imports, "example.com/m/internal/x"), None);
}

#[test]
fn grouped_imports_are_all_read() {
    let imports = imports_of(
        "package a\n\nimport (\n\t\"fmt\"\n\t\"example.com/m/pkg/store\"\n\tlog \"example.com/m/pkg/logging\"\n)\n",
    );
    assert_eq!(held(&imports, "fmt"), Some("fmt".to_string()));
    assert_eq!(held(&imports, "store"), Some("example.com/m/pkg/store".to_string()));
    assert_eq!(held(&imports, "log"), Some("example.com/m/pkg/logging".to_string()));
    assert_eq!(held(&imports, "logging"), None);
}

#[test]
fn dot_and_blank_imports_are_skipped() {
    let imports = imports_of(
        "package a\n\nimport (\n\t. \"example.com/m/dot\"\n\t_ \"example.com/m/blank\"\n\t\"example.com/m/kept\"\n)\n",
    );
    assert_eq!(held(&imports, "."), None);
    assert_eq!(held(&imports, "_"), None);
    assert_eq!(held(&imports, "dot"), None);
    assert_eq!(held(&imports, "blank"), None);
    assert_eq!(held(&imports, "kept"), Some("example.com/m/kept".to_string()));
}

#[test]
fn a_later_import_under_the_same_name_counts() {
    let imports = imports_of(
        "package a\n\nimport \"example.com/m/one/util\"\nimport \"example.com/m/two/util\"\n",
    );
    assert_eq!(held(&imports, "util"), Some("example.com/m/two/util".to_string()));
}

#[test]
fn a_file_without_imports_has_none() {
    let imports = imports_of("package a\n\nfunc F() {}\n");
    assert_eq!(held(&imports, "a"), None);
    assert_eq!(imports.steps(), 0);
}

#[test]
fn import_paths_inside_the_module_stand_for_directories() {
    assert_eq!(
        import_path_to_dir("example.com/m/internal/x", "example.com/m"),
        Some("internal/x".to_string())
    );
    assert_eq!(import_path_to_dir("example.com/m", "example.com/m"), Some(".".to_string()));
    assert_eq!(import_path_to_dir("example.com/m/", "example.com/m"), Some(".".to_string()));
    assert_eq!(import_path_to_dir("example.com/m//a", "example.com/m"), Some("a".to_string()));
    assert_eq!(import_path_to_dir("anything", ""), Some("anything".to_string()));
}

#[test]
fn import_paths_outside_the_module_stand_for_nothing() {
    assert_eq!(import_path_to_dir("fmt", "example.com/m"), None);
    assert_eq!(import_path_to_dir("example.com/other/x", "example.com/m"), None);
    assert_eq!(import_path_to_dir("example.com", "example.com/m"), None);
}

#[test]
fn qualifiers_resolve_through_the_imports_of_the_file() {
    let mut imports = TextMap::new();
    imports.insert("pkgname".to_string(), "example.com/m/internal/x".to_string());
    imports.insert("fmt".to_string(), "fmt".to_string());
    assert_eq!(
        resolve_import_to_dir("pkgname", &imports, "example.com/m"),
        Some("internal/x".to_string())
    );
    assert_eq!(resolve_import_to_dir("fmt", &imports, "example.com/m"), None);
    assert_eq!(resolve_import_to_dir("absent", &imports, "example.com/m"), None);
}

#[test]
fn resolving_all_imports_leaves_out_the_external_ones() {
    let mut imports = TextMap::new();
    imports.insert("x".to_string(), "example.com/m/internal/x".to_string());
    imports.insert("fmt".to_string(), "fmt".to_string());
    imports.insert("root".to_string(), "example.com/m".to_string());
    imports.insert("twice".to_string(), "example.com/m/first".to_string());
    imports.insert("twice".to_string(), "os".to_string());
    imports.insert("again".to_string(), "os".to_string());
    imports.insert("again".to_string(), "example.com/m/second".to_string());
    let dirs = resolve_imports(&imports, "example.com/m");
    assert_eq!(held(&dirs, "x"), Some("internal/x".to_string()));
    assert_eq!(held(&dirs, "fmt"), None);
    assert_eq!(held(&dirs, "root"), Some(".".to_string()));
    assert_eq!(held(&dirs, "twice"), None);
    assert_eq!(held(&dirs, "again"), Some("second".to_string()));
    assert!(!dirs.contains_key("fmt"));
}

#[test]
fn text_maps_keep_the_last_word_on_a_key() {
    let mut map = TextMap::new();
    assert_eq!(held(&map, "a"), None);
    map.insert("a".to_string(), "1".to_string());
    map.insert("b".to_string(), "2".to_string());
    map.insert("a".to_string(), "3".to_string());
    assert_eq!(held(&map, "a"), Some("3".to_string()));
    assert_eq!(held(&map, "b"), Some("2".to_string()));
    map.remove("a".to_string());
    assert_eq!(held(&map, "a"), None);
    assert!(!map.contains_key("a"));
    assert!(map.contains_key("b"));
    map.insert("a".to_string(), "4".to_string());
    assert_eq!(held(&map, "a"), Some("4".to_string()));
    assert_eq!(map.steps(), 5);
    assert_eq!(map.step(1).key, "b");
    assert_eq!(map.step(3).value, None);
}

#[test]
fn the_module_line_of_a_manifest_names_the_module() {
    assert_eq!(
        read_manifest_module("module example.com/m\n\ngo 1.22\n"),
        Some("example.com/m".to_string())
    );
    assert_eq!(
        read_manifest_module("// comment\r\nmodule   example.com/m  \r\ngo 1.22\r\n"),
        Some("example.com/m".to_string())
    );
    assert_eq!(read_manifest_module("module x"), Some("x".to_string()));
    assert_eq!(
        read_manifest_module("module module module y\n"),
        Some("y".to_string())
    );
    assert_eq!(read_manifest_module("module \n"), Some("".to_string()));
}

#[test]
fn the_first_module_line_counts() {
    assert_eq!(
        read_manifest_module("go 1.22\nmodule first\nmodule second\n"),
        Some("first".to_string())
    );
}

#[test]
fn a_manifest_without_a_module_line_names_none() {
    assert_eq!(read_manifest_module(""), None);
    assert_eq!(read_manifest_module("go 1.22\n"), None);
    assert_eq!(read_manifest_module(" module x\n"), None);
    assert_eq!(read_manifest_module("module\n"), None);
    assert_eq!(read_manifest_module("modulex y\n"), None);
}

#[test]
fn the_module_name_falls_back_to_the_repository_name() {
    assert_eq!(get_go_module_name(Some("module example.com/m\n"), Some("repo")), "example.com/m");
    assert_eq!(get_go_module_name(Some("go 1.22\n"), Some("repo")), "repo");
    assert_eq!(get_go_module_name(None, Some("repo")), "repo");
    assert_eq!(get_go_module_name(None, None), "unknown");
    assert_eq!(get_go_module_name(Some(""), None), "unknown");
}
