use cargo_geiger::format::{Charset, Prefix};
use cargo_geiger::graph::{build_graph, GraphConfig, ResolvedDep, ResolvedPackage};
use cargo_geiger::kind::{DepKind, ExtraDeps};
use cargo_geiger::tree::{line_vines, walk_dependency_tree, Direction, LineMark, TextTreeLine, WalkConfig};

fn dep(package: usize, kind: DepKind) -> ResolvedDep {
    ResolvedDep { package, kind, platform: None, replacement: None }
}

fn pkg(name: &str, version: &str, deps: Vec<ResolvedDep>) -> ResolvedPackage {
    ResolvedPackage {
        name: name.to_string(),
        version: version.to_string(),
        license: None,
        repository: None,
        deps,
    }
}

fn walk(packages: &Vec<ResolvedPackage>, root: usize, all: bool, prefix: Prefix, direction: Direction) -> Vec<TextTreeLine> {
    let config = GraphConfig { target: None, cfgs: None, extra_deps: ExtraDeps::All };
    let g = build_graph(packages, root, &config).unwrap();
    let walk_config = WalkConfig { all, direction, prefix, charset: Charset::Utf8 };
    walk_dependency_tree(root, &g, packages, &walk_config)
}

/// Lines as (package or kind name, prefix, mark).
fn describe(lines: &[TextTreeLine], packages: &Vec<ResolvedPackage>) -> Vec<(String, String, Option<LineMark>)> {
    lines
        .iter()
        .map(|l| match l {
            TextTreeLine::Package { id, tree_vines, mark, .. } => {
                (packages[*id].name.clone(), tree_vines.clone(), Some(*mark))
            }
            TextTreeLine::ExtraDepsGroup { kind, tree_vines, .. } => (format!("{:?}", kind), tree_vines.clone(), None),
        })
        .collect()
}

fn entry(name: &str, vines: &str, mark: Option<LineMark>) -> (String, String, Option<LineMark>) {
    (name.to_string(), vines.to_string(), mark)
}

/// A -> B, A -> C, B -> D, C -> D, listed so that insertion order differs from name order.
fn diamond() -> Vec<ResolvedPackage> {
    vec![
        pkg("a", "1.0.0", vec![dep(2, DepKind::Normal), dep(1, DepKind::Normal)]),
        pkg("b", "1.0.0", vec![dep(3, DepKind::Normal)]),
        pkg("c", "1.0.0", vec![dep(3, DepKind::Normal)]),
        pkg("d", "1.0.0", vec![]),
    ]
}

#[test]
fn diamond_expands_shared_subtree_once() {
    let packages = diamond();
    let lines = walk(&packages, 0, false, Prefix::Indent, Direction::Dependencies);
    assert_eq!(
        describe(&lines, &packages),
        vec![
            entry("a", "", Some(LineMark::Expanded)),
            entry("b", "├── ", Some(LineMark::Expanded)),
            entry("d", "│   └── ", Some(LineMark::Expanded)),
            entry("c", "└── ", Some(LineMark::Expanded)),
            entry("d", "    └── ", Some(LineMark::Repeated)),
        ]
    );
}

#[test]
fn diamond_with_all_expands_every_occurrence() {
    let packages = diamond();
    let lines = walk(&packages, 0, true, Prefix::Indent, Direction::Dependencies);
    let marks: Vec<(String, Option<LineMark>)> = describe(&lines, &packages).into_iter().map(|(n, _, m)| (n, m)).collect();
    assert_eq!(
        marks,
        vec![
            ("a".to_string(), Some(LineMark::Expanded)),
            ("b".to_string(), Some(LineMark::Expanded)),
            ("d".to_string(), Some(LineMark::Expanded)),
            ("c".to_string(), Some(LineMark::Expanded)),
            ("d".to_string(), Some(LineMark::Expanded)),
        ]
    );
}

#[test]
fn cycle_is_marked_and_not_descended() {
    let packages = vec![
        pkg("a", "1.0.0", vec![dep(1, DepKind::Normal)]),
        pkg("b", "1.0.0", vec![dep(0, DepKind::Normal)]),
    ];
    for all in [false, true] {
        let lines = walk(&packages, 0, all, Prefix::NoIndent, Direction::Dependencies);
        assert_eq!(
            describe(&lines, &packages),
            vec![
                entry("a", "", Some(LineMark::Expanded)),
                entry("b", "", Some(LineMark::Expanded)),
                entry("a", "", Some(LineMark::Cycle)),
            ]
        );
    }
}

#[test]
fn kind_groups_follow_normal_children() {
    let packages = vec![
        pkg("root", "1.0.0", vec![dep(1, DepKind::Build), dep(2, DepKind::Normal), dep(3, DepKind::Development)]),
        pkg("cc", "1.0.0", vec![]),
        pkg("libc", "0.2.0", vec![]),
        pkg("tempfile", "3.0.0", vec![]),
    ];
    let lines = walk(&packages, 0, false, Prefix::Indent, Direction::Dependencies);
    assert_eq!(
        describe(&lines, &packages),
        vec![
            entry("root", "", Some(LineMark::Expanded)),
            entry("libc", "└── ", Some(LineMark::Expanded)),
            entry("Build", "", None),
            entry("cc", "└── ", Some(LineMark::Expanded)),
            entry("Development", "", None),
            entry("tempfile", "└── ", Some(LineMark::Expanded)),
        ]
    );
}

#[test]
fn children_sorted_by_name_then_version() {
    let packages = vec![
        pkg("root", "1.0.0", vec![dep(1, DepKind::Normal), dep(2, DepKind::Normal), dep(3, DepKind::Normal)]),
        pkg("zeta", "1.0.0", vec![]),
        pkg("alpha", "2.0.0", vec![]),
        pkg("alpha", "1.0.0", vec![]),
    ];
    let lines = walk(&packages, 0, false, Prefix::Depth, Direction::Dependencies);
    let ids: Vec<(usize, String)> = lines
        .iter()
        .map(|l| match l {
            TextTreeLine::Package { id, tree_vines, .. } => (*id, tree_vines.clone()),
            TextTreeLine::ExtraDepsGroup { .. } => panic!("no group expected"),
        })
        .collect();
    assert_eq!(
        ids,
        vec![(0, "0 ".to_string()), (3, "1 ".to_string()), (2, "1 ".to_string()), (1, "1 ".to_string())]
    );
}

#[test]
fn dependents_direction_walks_edges_backwards() {
    let packages = diamond();
    let config = GraphConfig { target: None, cfgs: None, extra_deps: ExtraDeps::All };
    let g = build_graph(&packages, 0, &config).unwrap();
    let walk_config = WalkConfig { all: false, direction: Direction::Dependents, prefix: Prefix::NoIndent, charset: Charset::Utf8 };
    let lines = walk_dependency_tree(3, &g, &packages, &walk_config);
    let names: Vec<String> = describe(&lines, &packages).into_iter().map(|(n, _, _)| n).collect();
    assert_eq!(names, vec!["d", "b", "a", "c", "a"]);
}

#[test]
fn root_outside_the_graph_gives_no_lines() {
    let packages = vec![pkg("a", "1.0.0", vec![]), pkg("b", "1.0.0", vec![])];
    let config = GraphConfig { target: None, cfgs: None, extra_deps: ExtraDeps::All };
    let g = build_graph(&packages, 0, &config).unwrap();
    let walk_config = WalkConfig { all: false, direction: Direction::Dependencies, prefix: Prefix::Indent, charset: Charset::Ascii };
    assert!(walk_dependency_tree(1, &g, &packages, &walk_config).is_empty());
    assert!(walk_dependency_tree(7, &g, &packages, &walk_config).is_empty());
}

#[test]
fn line_vines_styles() {
    assert_eq!(line_vines(&vec![true, false, true], Prefix::Indent, Charset::Utf8), "│       ├── ");
    assert_eq!(line_vines(&vec![false, true, false], Prefix::Indent, Charset::Ascii), "    |   `-- ");
    assert_eq!(line_vines(&vec![true; 12], Prefix::Depth, Charset::Utf8), "12 ");
    assert_eq!(line_vines(&vec![], Prefix::Indent, Charset::Utf8), "");
    assert_eq!(line_vines(&vec![true], Prefix::NoIndent, Charset::Utf8), "");
}

#[test]
fn repeated_subtree_stands_once_with_depths() {
    // A -> B, A -> C, B -> D, C -> D, D -> E
    let packages = vec![
        pkg("a", "1.0.0", vec![dep(1, DepKind::Normal), dep(2, DepKind::Normal)]),
        pkg("b", "1.0.0", vec![dep(3, DepKind::Normal)]),
        pkg("c", "1.0.0", vec![dep(3, DepKind::Normal)]),
        pkg("d", "1.0.0", vec![dep(4, DepKind::Normal)]),
        pkg("e", "1.0.0", vec![]),
    ];
    let lines = walk(&packages, 0, false, Prefix::NoIndent, Direction::Dependencies);
    let shape: Vec<(String, usize, LineMark)> = lines
        .iter()
        .map(|l| match l {
            TextTreeLine::Package { id, mark, depth, .. } => (packages[*id].name.clone(), *depth, *mark),
            TextTreeLine::ExtraDepsGroup { .. } => panic!("no group expected"),
        })
        .collect();
    assert_eq!(
        shape,
        vec![
            ("a".to_string(), 0, LineMark::Expanded),
            ("b".to_string(), 1, LineMark::Expanded),
            ("d".to_string(), 2, LineMark::Expanded),
            ("e".to_string(), 3, LineMark::Expanded),
            ("c".to_string(), 1, LineMark::Expanded),
            ("d".to_string(), 2, LineMark::Repeated),
        ]
    );
}

#[test]
fn group_header_depth_is_that_of_its_children() {
    let packages = vec![pkg("root", "1.0.0", vec![dep(1, DepKind::Build)]), pkg("cc", "1.0.0", vec![])];
    let lines = walk(&packages, 0, false, Prefix::Indent, Direction::Dependencies);
    match &lines[1] {
        TextTreeLine::ExtraDepsGroup { kind, depth, .. } => {
            assert_eq!(*kind, DepKind::Build);
            assert_eq!(*depth, 1);
        }
        other => panic!("unexpected {:?}", other),
    }
}

#[test]
fn group_header_in_every_prefix_style() {
    let packages = vec![
        pkg("root", "1.0.0", vec![dep(1, DepKind::Normal), dep(2, DepKind::Development)]),
        pkg("zlib", "1.0.0", vec![]),
        pkg("assert", "1.0.0", vec![]),
    ];
    let lines = walk(&packages, 0, false, Prefix::NoIndent, Direction::Dependencies);
    assert_eq!(
        describe(&lines, &packages),
        vec![
            entry("root", "", Some(LineMark::Expanded)),
            entry("zlib", "", Some(LineMark::Expanded)),
            entry("Development", "", None),
            entry("assert", "", Some(LineMark::Expanded)),
        ]
    );
}
