use cargo_geiger::dependency_kind::build_dependency_kind_hashmap;
use cargo_geiger::graph::{
    build_graph, build_graph_admitting, GraphConfig, GraphError, PackageGraph, ResolvedDep, ResolvedPackage,
};
use cargo_geiger::kind::{get_kind_group_name, DepKind, ExtraDeps};
use std::str::FromStr;

fn dep(package: usize, kind: DepKind) -> ResolvedDep {
    ResolvedDep { package, kind, platform: None, replacement: None }
}

fn pkg(name: &str, deps: Vec<ResolvedDep>) -> ResolvedPackage {
    ResolvedPackage {
        name: name.to_string(),
        version: "1.0.0".to_string(),
        license: None,
        repository: None,
        deps,
    }
}

fn config(extra_deps: ExtraDeps) -> GraphConfig {
    GraphConfig { target: None, cfgs: None, extra_deps }
}

fn packages_of(g: &PackageGraph) -> Vec<usize> {
    (0..g.node_count()).map(|i| g.node_package(i)).collect()
}

fn edge_packages(g: &PackageGraph) -> Vec<(usize, usize, DepKind)> {
    let mut v: Vec<(usize, usize, DepKind)> = g
        .edges()
        .into_iter()
        .map(|(a, b, k)| (g.node_package(a), g.node_package(b), k))
        .collect();
    v.sort_by_key(|(a, b, k)| (*a, *b, k.strength()));
    v
}

/// R (0) -> P (1) as a build dependency, P -> Q (2) as a normal one.
fn chain() -> Vec<ResolvedPackage> {
    vec![
        pkg("r", vec![dep(1, DepKind::Build)]),
        pkg("p", vec![dep(2, DepKind::Normal)]),
        pkg("q", vec![]),
    ]
}

#[test]
fn extra_deps_allows_test() {
    assert_eq!(ExtraDeps::All.allows(DepKind::Normal), true);
    assert_eq!(ExtraDeps::Build.allows(DepKind::Normal), true);
    assert_eq!(ExtraDeps::Dev.allows(DepKind::Normal), true);
    assert_eq!(ExtraDeps::NoMore.allows(DepKind::Normal), true);

    assert_eq!(ExtraDeps::All.allows(DepKind::Build), true);
    assert_eq!(ExtraDeps::All.allows(DepKind::Development), true);

    assert_eq!(ExtraDeps::Build.allows(DepKind::Build), true);
    assert_eq!(ExtraDeps::Build.allows(DepKind::Development), false);

    assert_eq!(ExtraDeps::Dev.allows(DepKind::Build), false);
    assert_eq!(ExtraDeps::Dev.allows(DepKind::Development), true);
}

#[test]
fn get_kind_group_name_test() {
    assert_eq!(get_kind_group_name(DepKind::Normal), None);

    assert_eq!(get_kind_group_name(DepKind::Build), Some("[build-dependencies]"));

    assert_eq!(get_kind_group_name(DepKind::Development), Some("[dev-dependencies]"));
}

#[test]
fn dep_kind_weakest_and_strongest() {
    assert_eq!(DepKind::Normal.weakest(&DepKind::Build), DepKind::Build);
    assert_eq!(DepKind::Development.weakest(&DepKind::Normal), DepKind::Development);
    assert_eq!(DepKind::Build.strongest(&DepKind::Development), DepKind::Build);
    assert!(DepKind::Normal.is_stronger_than(&DepKind::Build));
    assert!(!DepKind::Build.is_stronger_than(&DepKind::Build));
}

#[test]
fn chain_effective_kinds() {
    let packages = chain();
    let g = build_graph(&packages, 0, &config(ExtraDeps::Build)).unwrap();
    assert_eq!(packages_of(&g), vec![0, 1, 2]);
    let eff = build_dependency_kind_hashmap(&g);
    let by_package: Vec<Option<DepKind>> = (0..3)
        .map(|p| g.node_of(p).and_then(|n| eff[n]))
        .collect();
    assert_eq!(
        by_package,
        vec![Some(DepKind::Normal), Some(DepKind::Build), Some(DepKind::Build)]
    );
}

#[test]
fn chain_no_more_drops_build_subtree() {
    let packages = chain();
    let g = build_graph(&packages, 0, &config(ExtraDeps::NoMore)).unwrap();
    assert_eq!(packages_of(&g), vec![0]);
    assert_eq!(g.node_of(1), None);
    assert_eq!(g.node_of(2), None);
    assert!(g.edges().is_empty());
}

#[test]
fn no_more_keeps_only_normal_edges() {
    let packages = vec![
        pkg("root", vec![dep(1, DepKind::Normal), dep(2, DepKind::Build), dep(3, DepKind::Development)]),
        pkg("a", vec![dep(2, DepKind::Normal)]),
        pkg("b", vec![]),
        pkg("c", vec![]),
    ];
    let g = build_graph(&packages, 0, &config(ExtraDeps::NoMore)).unwrap();
    assert_eq!(edge_packages(&g), vec![(0, 1, DepKind::Normal), (1, 2, DepKind::Normal)]);
    let all = build_graph(&packages, 0, &config(ExtraDeps::All)).unwrap();
    assert_eq!(
        edge_packages(&all),
        vec![
            (0, 1, DepKind::Normal),
            (0, 2, DepKind::Build),
            (0, 3, DepKind::Development),
            (1, 2, DepKind::Normal),
        ]
    );
    let dev = build_graph(&packages, 0, &config(ExtraDeps::Dev)).unwrap();
    assert_eq!(
        edge_packages(&dev),
        vec![(0, 1, DepKind::Normal), (0, 3, DepKind::Development), (1, 2, DepKind::Normal)]
    );
}

#[test]
fn each_package_gets_one_node_in_a_diamond_and_a_cycle() {
    let packages = vec![
        pkg("a", vec![dep(1, DepKind::Normal), dep(2, DepKind::Normal)]),
        pkg("b", vec![dep(3, DepKind::Normal)]),
        pkg("c", vec![dep(3, DepKind::Normal)]),
        pkg("d", vec![dep(0, DepKind::Normal)]),
    ];
    let g = build_graph(&packages, 0, &config(ExtraDeps::All)).unwrap();
    let mut ps = packages_of(&g);
    ps.sort();
    assert_eq!(ps, vec![0, 1, 2, 3]);
    assert_eq!(g.edges().len(), 5);
}

#[test]
fn replacement_is_followed() {
    let packages = vec![
        pkg("root", vec![ResolvedDep { package: 1, kind: DepKind::Normal, platform: None, replacement: Some(2) }]),
        pkg("original", vec![]),
        pkg("patched", vec![]),
    ];
    let g = build_graph(&packages, 0, &config(ExtraDeps::All)).unwrap();
    assert_eq!(edge_packages(&g), vec![(0, 2, DepKind::Normal)]);
    assert_eq!(g.node_of(1), None);
}

#[test]
fn unresolved_dependency_is_an_error() {
    let packages = vec![pkg("root", vec![dep(5, DepKind::Normal)])];
    assert_eq!(
        build_graph(&packages, 0, &config(ExtraDeps::All)).err(),
        Some(GraphError::ResolutionInconsistency)
    );
    // An unreachable package with a bad dependency is refused as well.
    let packages = vec![pkg("root", vec![]), pkg("stray", vec![dep(9, DepKind::Build)])];
    assert_eq!(
        build_graph(&packages, 0, &config(ExtraDeps::All)).err(),
        Some(GraphError::ResolutionInconsistency)
    );
}

#[test]
fn root_outside_the_set_is_an_error() {
    let packages = vec![pkg("root", vec![])];
    assert_eq!(
        build_graph(&packages, 3, &config(ExtraDeps::All)).err(),
        Some(GraphError::ResolutionInconsistency)
    );
}

#[test]
fn platform_predicates_filter_when_target_is_known() {
    let unix = cargo_platform::Platform::from_str("cfg(unix)").unwrap();
    let windows = cargo_platform::Platform::from_str("cfg(windows)").unwrap();
    let packages = vec![
        pkg(
            "root",
            vec![
                ResolvedDep { package: 1, kind: DepKind::Normal, platform: Some(unix), replacement: None },
                ResolvedDep { package: 2, kind: DepKind::Normal, platform: Some(windows), replacement: None },
            ],
        ),
        pkg("nix", vec![]),
        pkg("winapi", vec![]),
    ];
    let cfgs = vec![cargo_platform::Cfg::from_str("unix").unwrap()];
    let known = GraphConfig {
        target: Some("x86_64-unknown-linux-gnu".to_string()),
        cfgs: Some(cfgs),
        extra_deps: ExtraDeps::All,
    };
    let g = build_graph(&packages, 0, &known).unwrap();
    assert_eq!(edge_packages(&g), vec![(0, 1, DepKind::Normal)]);

    // Unknown target: every predicate lets its dependency in.
    let g = build_graph(&packages, 0, &config(ExtraDeps::All)).unwrap();
    assert_eq!(edge_packages(&g), vec![(0, 1, DepKind::Normal), (0, 2, DepKind::Normal)]);

    // Known target, unknown cfgs: the predicates cannot be decided, so their
    // dependencies are included.
    let no_cfgs = GraphConfig {
        target: Some("x86_64-unknown-linux-gnu".to_string()),
        cfgs: None,
        extra_deps: ExtraDeps::All,
    };
    let g = build_graph(&packages, 0, &no_cfgs).unwrap();
    assert_eq!(edge_packages(&g), vec![(0, 1, DepKind::Normal), (0, 2, DepKind::Normal)]);
}

#[test]
fn effective_kind_takes_strongest_path() {
    // root -dev-> a -normal-> c ; root -normal-> b -build-> c
    let packages = vec![
        pkg("root", vec![dep(1, DepKind::Development), dep(2, DepKind::Normal)]),
        pkg("a", vec![dep(3, DepKind::Normal)]),
        pkg("b", vec![dep(3, DepKind::Build)]),
        pkg("c", vec![]),
    ];
    let g = build_graph(&packages, 0, &config(ExtraDeps::All)).unwrap();
    let eff = build_dependency_kind_hashmap(&g);
    let kind_of = |p: usize| eff[g.node_of(p).unwrap()];
    assert_eq!(kind_of(0), Some(DepKind::Normal));
    assert_eq!(kind_of(1), Some(DepKind::Development));
    assert_eq!(kind_of(2), Some(DepKind::Normal));
    assert_eq!(kind_of(3), Some(DepKind::Build));
}

#[test]
fn effective_kinds_are_a_fixpoint() {
    let packages = vec![
        pkg("root", vec![dep(1, DepKind::Build), dep(2, DepKind::Normal)]),
        pkg("a", vec![dep(2, DepKind::Normal), dep(0, DepKind::Normal)]),
        pkg("b", vec![dep(1, DepKind::Development), dep(3, DepKind::Normal)]),
        pkg("c", vec![dep(3, DepKind::Normal)]),
    ];
    let g = build_graph(&packages, 0, &config(ExtraDeps::All)).unwrap();
    let eff = build_dependency_kind_hashmap(&g);
    for (a, b, k) in g.edges() {
        let parent = eff[a].unwrap();
        let child = eff[b].unwrap();
        assert!(child.strength() >= k.weakest(&parent).strength());
    }
    assert_eq!(eff[0], Some(DepKind::Normal));
}

#[test]
fn cycle_behind_weak_edge_stays_weak() {
    // root -dev-> x, x <-> y through normal edges: both are only reached through the dev edge.
    let packages = vec![
        pkg("root", vec![dep(1, DepKind::Development)]),
        pkg("x", vec![dep(2, DepKind::Normal)]),
        pkg("y", vec![dep(1, DepKind::Normal)]),
    ];
    let g = build_graph(&packages, 0, &config(ExtraDeps::All)).unwrap();
    let eff = build_dependency_kind_hashmap(&g);
    assert_eq!(eff[g.node_of(1).unwrap()], Some(DepKind::Development));
    assert_eq!(eff[g.node_of(2).unwrap()], Some(DepKind::Development));
}

#[test]
fn admission_table_decides_platform_filter() {
    let packages = vec![
        pkg("root", vec![dep(1, DepKind::Normal), dep(2, DepKind::Build)]),
        pkg("a", vec![]),
        pkg("b", vec![]),
    ];
    let admitted = vec![vec![false, true], vec![], vec![]];
    let g = build_graph_admitting(&packages, 0, ExtraDeps::All, &admitted).unwrap();
    assert_eq!(edge_packages(&g), vec![(0, 2, DepKind::Build)]);
    assert_eq!(g.node_of(1), None);
}

#[test]
fn each_dependency_yields_its_own_edge() {
    // Two declarations of the same dependency and kind: two edges.
    let packages = vec![pkg("root", vec![dep(1, DepKind::Normal), dep(1, DepKind::Normal)]), pkg("a", vec![])];
    let g = build_graph(&packages, 0, &config(ExtraDeps::All)).unwrap();
    assert_eq!(edge_packages(&g), vec![(0, 1, DepKind::Normal), (0, 1, DepKind::Normal)]);
}
