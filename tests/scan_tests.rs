use cargo_geiger::format::CrateDetectionStatus;
use cargo_geiger::graph::ResolvedPackage;
use cargo_geiger::pattern::Pattern;
use cargo_geiger::scan::{
    check_warnings, construct_rs_files_used_lines, count_warnings, format_counters, format_package_name, format_ratio,
    list_files_used_but_not_scanned, summarize_package, summary_for_package, Count, CounterBlock, FileMetrics,
    FoundWarningsError, PackageMetrics, ScannedFile,
};

fn block(unsafe_exprs: u64) -> CounterBlock {
    let mut b = CounterBlock::zero();
    b.exprs = Count { safe: 1, unsafe_: unsafe_exprs };
    b
}

fn file(path: &str, unsafe_exprs: u64, forbids_unsafe: bool, entry: bool) -> ScannedFile {
    ScannedFile {
        path: path.to_string(),
        metrics: FileMetrics { counters: block(unsafe_exprs), forbids_unsafe },
        is_crate_entry_point: entry,
    }
}

#[test]
fn construct_rs_files_used_lines_test() {
    let rs_files_used = vec![String::from("b/path.rs"), String::from("a/path.rs"), String::from("c/path.rs")];

    let rs_files_used_lines = construct_rs_files_used_lines(&rs_files_used);

    assert_eq!(
        rs_files_used_lines,
        vec![
            String::from("Used by build (sorted): a/path.rs"),
            String::from("Used by build (sorted): b/path.rs"),
            String::from("Used by build (sorted): c/path.rs"),
        ]
    );
}

#[test]
fn format_package_name_test() {
    let pattern = Pattern::try_build("{p}").unwrap();
    let package = ResolvedPackage {
        name: "cargo-geiger".to_string(),
        version: "0.10.2".to_string(),
        license: None,
        repository: None,
        deps: vec![],
    };

    let formatted_package_name = format_package_name(&package, &pattern);

    assert_eq!(formatted_package_name, "cargo-geiger 0.10.2");
}

#[test]
fn only_entry_points_decide_forbids_unsafe() {
    let files = vec![file("a.rs", 0, true, true), file("b.rs", 0, false, false)];
    let s = summarize_package(&files, &vec!["a.rs".to_string(), "b.rs".to_string()]);
    assert_eq!(s.forbids_unsafe, Some(true));
    assert_eq!(s.status, CrateDetectionStatus::NoneDetectedForbidsUnsafe);

    let files = vec![file("a.rs", 0, true, true), file("main.rs", 0, false, true)];
    let s = summarize_package(&files, &vec![]);
    assert_eq!(s.forbids_unsafe, Some(false));
    assert_eq!(s.status, CrateDetectionStatus::NoneDetectedAllowsUnsafe);
}

#[test]
fn used_and_total_counts() {
    let files = vec![file("a.rs", 0, false, true), file("b.rs", 5, false, false)];
    let s = summarize_package(&files, &vec!["a.rs".to_string()]);
    assert_eq!(s.used.exprs.unsafe_, 0);
    assert_eq!(s.total.exprs.unsafe_, 5);
    assert_eq!(s.used.exprs.safe, 1);
    assert_eq!(s.total.exprs.safe, 2);
    assert_eq!(format_ratio(s.used.exprs.unsafe_, s.total.exprs.unsafe_), "0/5");
    assert_eq!(s.status, CrateDetectionStatus::NoneDetectedAllowsUnsafe);

    let s = summarize_package(&files, &vec!["a.rs".to_string(), "b.rs".to_string()]);
    assert_eq!(s.used.exprs.unsafe_, 5);
    assert_eq!(s.status, CrateDetectionStatus::UnsafeDetected);
}

#[test]
fn counts_saturate() {
    let mut big = CounterBlock::zero();
    big.methods = Count { safe: u64::MAX - 1, unsafe_: 0 };
    let f = |b: CounterBlock| ScannedFile {
        path: "x.rs".to_string(),
        metrics: FileMetrics { counters: b, forbids_unsafe: false },
        is_crate_entry_point: false,
    };
    let files = vec![f(big), f(big)];
    let s = summarize_package(&files, &vec![]);
    assert_eq!(s.total.methods.safe, u64::MAX);
    assert_eq!(s.used.methods.safe, 0);
}

#[test]
fn package_without_files_is_unknown() {
    let s = summarize_package(&vec![], &vec![]);
    assert_eq!(s.forbids_unsafe, None);
    assert_eq!(s.status, CrateDetectionStatus::NoneDetectedAllowsUnsafe);
    let metrics = vec![PackageMetrics { package: 4, files: vec![file("a.rs", 2, false, true)] }];
    let s = summary_for_package(&metrics, 1, &vec!["a.rs".to_string()]);
    assert_eq!(s.forbids_unsafe, None);
    let s = summary_for_package(&metrics, 4, &vec!["a.rs".to_string()]);
    assert_eq!(s.used.exprs.unsafe_, 2);
    assert_eq!(s.status, CrateDetectionStatus::UnsafeDetected);
}

#[test]
fn used_but_unscanned_file_is_one_warning() {
    let metrics = vec![PackageMetrics { package: 0, files: vec![file("a.rs", 0, true, true), file("b.rs", 5, false, false)] }];
    let used = vec!["a.rs".to_string(), "c.rs".to_string()];
    assert_eq!(list_files_used_but_not_scanned(&metrics, &used), vec!["c.rs".to_string()]);
    let warnings = count_warnings(&metrics, &used);
    assert_eq!(warnings, 1);
    assert_eq!(check_warnings(warnings), Err(FoundWarningsError { warning_count: 1 }));
    assert_eq!(check_warnings(count_warnings(&metrics, &vec!["b.rs".to_string()])), Ok(()));
}

#[test]
fn format_ratio_values() {
    assert_eq!(format_ratio(0, 0), "0/0");
    assert_eq!(format_ratio(12, 340), "12/340");
    assert_eq!(format_ratio(u64::MAX, 7), "18446744073709551615/7");
}

#[test]
fn counters_columns() {
    let used = CounterBlock::zero();
    let mut total = CounterBlock::zero();
    total.exprs = Count { safe: 3, unsafe_: 5 };
    total.methods = Count { safe: 0, unsafe_: 12 };
    assert_eq!(
        format_counters(&used, &total),
        "0/0        0/5          0/0    0/0     0/12    "
    );
}

#[test]
fn paths_sort_component_by_component() {
    let used = vec![String::from("a-b"), String::from("a/b"), String::from("a"), String::from("ab")];
    assert_eq!(
        construct_rs_files_used_lines(&used),
        vec![
            String::from("Used by build (sorted): a"),
            String::from("Used by build (sorted): a/b"),
            String::from("Used by build (sorted): a-b"),
            String::from("Used by build (sorted): ab"),
        ]
    );
}

#[test]
fn package_without_entry_point_does_not_forbid() {
    let files = vec![file("mod.rs", 0, true, false)];
    let s = summarize_package(&files, &vec![]);
    assert_eq!(s.forbids_unsafe, Some(false));
    assert_eq!(s.status, CrateDetectionStatus::NoneDetectedAllowsUnsafe);
}
