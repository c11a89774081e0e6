use fode::paths::{
    base_name, file_dir, file_extension, is_excluded_path, parent_dir_name, relative_path,
};

#[test]
fn file_dir_is_what_comes_before_the_last_slash() {
    assert_eq!(file_dir("internal/controller/run.go"), "internal/controller");
    assert_eq!(file_dir("cmd/main.go"), "cmd");
}

#[test]
fn file_dir_of_a_file_at_the_top_is_empty() {
    assert_eq!(file_dir("main.go"), "");
}

#[test]
fn file_dir_of_the_empty_path_is_a_dot() {
    assert_eq!(file_dir(""), ".");
}

#[test]
fn file_dir_of_a_file_in_the_root_is_the_root() {
    assert_eq!(file_dir("/main.go"), "/");
}

#[test]
fn file_dir_agrees_with_the_standard_parent_on_plain_paths() {
    for path in ["a/b/c.go", "a/b.go", "b.go", "", "/b.go", "/a/b.go", "./a.go"] {
        let expected = std::path::Path::new(path)
            .parent()
            .and_then(|p| p.to_str())
            .unwrap_or(".");
        assert_eq!(file_dir(path), expected);
    }
}

#[test]
fn base_name_is_the_last_segment() {
    assert_eq!(base_name("internal/controller"), "controller");
    assert_eq!(base_name("controller"), "controller");
    assert_eq!(base_name(""), "");
}

#[test]
fn parent_dir_name_names_the_directory_of_a_file() {
    assert_eq!(parent_dir_name("src/parser/mod.rs"), "parser");
    assert_eq!(parent_dir_name("src/lib.rs"), "src");
    assert_eq!(parent_dir_name("lib.rs"), "");
    assert_eq!(parent_dir_name("./lib.rs"), "");
    assert_eq!(parent_dir_name("../lib.rs"), "");
    assert_eq!(parent_dir_name("/lib.rs"), "");
    assert_eq!(parent_dir_name(""), "");
}

#[test]
fn extension_is_what_follows_the_last_dot_of_the_name() {
    assert_eq!(file_extension("a/b/main.go"), Some("go".to_string()));
    assert_eq!(file_extension("archive.tar.gz"), Some("gz".to_string()));
    assert_eq!(file_extension("a.b/main"), None);
    assert_eq!(file_extension("Makefile"), None);
    assert_eq!(file_extension(".gitignore"), None);
    assert_eq!(file_extension(".config.js"), Some("js".to_string()));
    assert_eq!(file_extension("name."), Some("".to_string()));
    assert_eq!(file_extension("a/.."), None);
    assert_eq!(file_extension(""), None);
}

#[test]
fn extension_agrees_with_the_standard_extension_on_file_paths() {
    for path in ["a/b.go", "b.tar.gz", "x", ".hidden", ".hidden.rs", "a.b/c", "dir/n.", "a/.."] {
        let expected = std::path::Path::new(path)
            .extension()
            .and_then(|e| e.to_str())
            .map(|e| e.to_string());
        assert_eq!(file_extension(path), expected);
    }
}

#[test]
fn hidden_and_denied_directories_are_excluded() {
    assert!(is_excluded_path("repo/.git/config.go"));
    assert!(is_excluded_path("repo/vendor/x/y.go"));
    assert!(is_excluded_path("repo/node_modules/x/index.js"));
    assert!(is_excluded_path("repo/target/debug/build.rs"));
    assert!(is_excluded_path("repo/pkg/testdata/in.go"));
    assert!(is_excluded_path("repo/pkg/.hidden.go"));
    assert!(is_excluded_path("vendor"));
    assert!(is_excluded_path("./.cache/a.go"));
    assert!(is_excluded_path("repo/.../a.go"));
    assert!(is_excluded_path(".hidden"));
}

#[test]
fn the_segments_dot_and_dot_dot_are_not_hidden() {
    assert!(!is_excluded_path("./repo/a.go"));
    assert!(!is_excluded_path("../repo/a.go"));
    assert!(!is_excluded_path("../../x/a.go"));
    assert!(!is_excluded_path("repo/../a.go"));
    assert!(!is_excluded_path("."));
    assert!(!is_excluded_path(".."));
    assert!(!is_excluded_path("./a.go"));
    assert!(is_excluded_path("./vendor/a.go"));
    assert!(is_excluded_path("../.git/a.go"));
}

#[test]
fn other_paths_are_kept() {
    assert!(!is_excluded_path("repo/pkg/a.go"));
    assert!(!is_excluded_path("/home/user/repo/pkg/a.go"));
    assert!(!is_excluded_path("repo/vendored/a.go"));
    assert!(!is_excluded_path("repo/targets/a.go"));
    assert!(!is_excluded_path("repo/a.b/c.go"));
    assert!(!is_excluded_path("repo/./a.go"));
    assert!(!is_excluded_path(""));
}

#[test]
fn relative_path_strips_the_root() {
    assert_eq!(relative_path("/repo/a/b.go", "/repo"), "a/b.go");
    assert_eq!(relative_path("/repo/a/b.go", "/repo/"), "a/b.go");
    assert_eq!(relative_path("repo//a.go", "repo"), "a.go");
    assert_eq!(relative_path("./a/b.go", "."), "a/b.go");
    assert_eq!(relative_path("/repo", "/repo"), "");
}

#[test]
fn relative_path_leaves_paths_outside_the_root() {
    assert_eq!(relative_path("/repository/a.go", "/repo"), "/repository/a.go");
    assert_eq!(relative_path("/other/a.go", "/repo"), "/other/a.go");
    assert_eq!(relative_path("a.go", ""), "a.go");
}
