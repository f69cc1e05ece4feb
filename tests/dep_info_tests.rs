use cargo_geiger::dep_info::dep_line_rs_paths;

#[test]
fn dep_line_lists_rust_sources_after_colon() {
    let line = "/t/debug/deps/libfoo-1.rmeta: /src/lib.rs /src/a.rs  /src/data.txt /src/b/mod.rs";
    assert_eq!(
        dep_line_rs_paths(line),
        vec!["/src/lib.rs".to_string(), "/src/a.rs".to_string(), "/src/b/mod.rs".to_string()]
    );
}

#[test]
fn dep_line_without_colon_or_sources() {
    assert!(dep_line_rs_paths("no colon here.rs").is_empty());
    assert!(dep_line_rs_paths("/src/lib.rs:").is_empty());
    assert!(dep_line_rs_paths("").is_empty());
    assert_eq!(dep_line_rs_paths("x:a.rs"), vec!["a.rs".to_string()]);
    assert!(dep_line_rs_paths("x: .r rs").is_empty());
}
