use dotnet_dependency_parser::graph::{DependencyGraphError, DependencyId, DependencyInfo, Framework};
use dotnet_dependency_parser::parsing::dgspec::{
    create_dependency_graph, DependencyGraphSpec, LibraryDependency, PackageSpec, ProjectReference, ProjectRestore,
    RestoreFramework, TargetFrameworkInformation,
};
use dotnet_dependency_parser::parsing::project_assets::{
    create_dependency_graph_from_assets, parse_dep_requirement, parse_library_id, try_create_dependency_graph_from_assets,
    try_parse_dep_requirement, Library, LibraryType,
    ProjectAssets, ProjectInfo, ProjectRestore as AssetsRestore, TargetLibrary,
};

fn lib(version: Option<&str>) -> LibraryDependency {
    LibraryDependency { target: Some("Package".to_string()), version: version.map(|v| v.to_string()) }
}

fn tfi(deps: Option<Vec<(String, LibraryDependency)>>) -> TargetFrameworkInformation {
    TargetFrameworkInformation {
        dependencies: deps,
        download_dependencies: None,
        framework_references: None,
        imports: None,
        target_alias: None,
        runtime_identifier_graph_path: None,
        asset_target_fallback: None,
        warn: None,
    }
}

fn restore(frameworks: Option<Vec<(String, RestoreFramework)>>) -> ProjectRestore {
    ProjectRestore {
        project_unique_name: None,
        project_name: None,
        project_path: None,
        packages_path: None,
        output_path: None,
        project_style: None,
        cross_targeting: None,
        config_file_paths: None,
        original_target_frameworks: None,
        frameworks,
        warning_properties: None,
        restore_audit_properties: None,
        sdk_analysis_level: None,
    }
}

fn find(graph: &dotnet_dependency_parser::graph::DependencyGraph, name: &str, version: Option<&str>) -> Option<DependencyId> {
    graph.iter().iter().find(|(_, d)| d.name() == name && d.version() == version).map(|(id, _)| *id)
}

#[test]
fn dgspec_builds_projects_packages_and_references() {
    let spec = DependencyGraphSpec {
        format: 1,
        projects: vec![
            (
                "/src/app/app.csproj".to_string(),
                PackageSpec {
                    version: Some("1.0.0".to_string()),
                    restore: Some(restore(Some(vec![(
                        "net8.0".to_string(),
                        RestoreFramework {
                            target_alias: None,
                            project_references: vec![(
                                "/src/lib/lib.csproj".to_string(),
                                ProjectReference { project_path: Some("/src/lib/lib.csproj".to_string()) },
                            )],
                        },
                    )]))),
                    frameworks: Some(vec![
                        ("net8.0".to_string(), tfi(Some(vec![("Serilog".to_string(), lib(Some("[4.0.0, )")))]))),
                        ("net9.0".to_string(), tfi(None)),
                    ]),
                },
            ),
            (
                "/src/lib/lib.csproj".to_string(),
                PackageSpec { version: None, restore: None, frameworks: Some(vec![("net8.0".to_string(), tfi(Some(vec![])))]) },
            ),
        ],
    };
    let graph = create_dependency_graph(spec).ok().unwrap();

    let app = find(&graph, "/src/app/app.csproj", Some("1.0.0")).unwrap();
    let serilog = find(&graph, "Serilog", Some("[4.0.0, )")).unwrap();
    let lib_ref = find(&graph, "/src/lib/lib.csproj", None).unwrap();
    assert_eq!(graph.iter().len(), 3);
    assert!(graph.get(app).unwrap().is_project());
    assert!(!graph.get(serilog).unwrap().is_project());
    assert!(graph.get(lib_ref).unwrap().is_project());

    let net8 = Framework::new("net8.0".to_string());
    let deps = graph.get_direct_dependencies_in_framework(app, &net8).unwrap();
    let tos: Vec<DependencyId> = deps.iter().map(|e| e.to()).collect();
    assert_eq!(tos, vec![lib_ref, serilog]);
    let names: Vec<&str> = graph.iter_frameworks().iter().map(|f| f.name()).collect();
    assert_eq!(names, vec!["net8.0"]);
}

#[test]
fn dgspec_with_conflicting_kinds_fails() {
    let spec = DependencyGraphSpec {
        format: 1,
        projects: vec![(
            "Shared".to_string(),
            PackageSpec {
                version: None,
                restore: None,
                frameworks: Some(vec![("net8.0".to_string(), tfi(Some(vec![("Shared".to_string(), lib(None))])))]),
            },
        )],
    };
    match create_dependency_graph(spec) {
        Err(DependencyGraphError::DifferentDependencyType) => {}
        other => panic!("unexpected {:?}", other.map(|g| g.iter().len())),
    }
}

#[test]
fn dgspec_empty_gives_empty_graph() {
    let graph = create_dependency_graph(DependencyGraphSpec { format: 1, projects: vec![] }).ok().unwrap();
    assert_eq!(graph.iter().len(), 0);
    assert_eq!(graph.iter_frameworks().len(), 0);
}

#[test]
fn library_id_splits_at_last_slash() {
    assert_eq!(parse_library_id("Serilog/4.0.0".to_string()), ("Serilog".to_string(), Some("4.0.0".to_string())));
    assert_eq!(parse_library_id("a/b/c".to_string()), ("a/b".to_string(), Some("c".to_string())));
    assert_eq!(parse_library_id("NoVersion".to_string()), ("NoVersion".to_string(), None));
    assert_eq!(parse_library_id("Trailing/".to_string()), ("Trailing".to_string(), Some(String::new())));
}

#[test]
fn dependency_requirement_forms() {
    assert_eq!(parse_dep_requirement("Serilog".to_string()), ("Serilog".to_string(), None));
    assert_eq!(
        parse_dep_requirement("Serilog >= 4.0.0".to_string()),
        ("Serilog".to_string(), Some("4.0.0".to_string()))
    );
    assert_eq!(parse_dep_requirement("  Serilog   >=\t4.0.0 ".to_string()), ("Serilog".to_string(), Some("4.0.0".to_string())));
    assert_eq!(parse_dep_requirement("Serilog <= 4.0.0".to_string()), ("Serilog".to_string(), None));
    assert_eq!(parse_dep_requirement("Serilog >= 4.0.0 extra".to_string()), ("Serilog".to_string(), None));
    assert_eq!(parse_dep_requirement("A B".to_string()), ("A".to_string(), None));
}

fn target_lib(kind: LibraryType, deps: Vec<(&str, &str)>) -> TargetLibrary {
    TargetLibrary {
        library_type: kind,
        dependencies: deps.into_iter().map(|(a, b)| (a.to_string(), b.to_string())).collect(),
        framework: None,
    }
}

fn library(kind: LibraryType) -> Library {
    Library { sha512: None, library_type: kind, path: String::new(), msbuild_project: None, files: vec![] }
}

fn sample_assets() -> ProjectAssets {
    ProjectAssets {
        version: 3,
        targets: vec![
            (
                "net8.0".to_string(),
                vec![
                    ("Serilog/4.0.0".to_string(), target_lib(LibraryType::Package, vec![])),
                    ("Serilog.Sinks.Console/6.1.1".to_string(), target_lib(LibraryType::Package, vec![("Serilog", "4.0.0")])),
                    ("Serilog.Sinks.Debug/3.0.0".to_string(), target_lib(LibraryType::Package, vec![("Serilog", "4.0.0")])),
                    ("lib/1.0.0".to_string(), target_lib(LibraryType::Project, vec![])),
                    ("System.Ref/1.0.0".to_string(), target_lib(LibraryType::Reference, vec![])),
                ],
            ),
            (
                "net9.0".to_string(),
                vec![
                    ("Serilog/4.0.0".to_string(), target_lib(LibraryType::Package, vec![])),
                    ("Serilog.Sinks.Console/6.1.1".to_string(), target_lib(LibraryType::Package, vec![("Serilog", "4.0.0")])),
                ],
            ),
        ],
        libraries: vec![
            ("Serilog/4.0.0".to_string(), library(LibraryType::Package)),
            ("lib/1.0.0".to_string(), library(LibraryType::Project)),
            ("Mystery/1.0.0".to_string(), library(LibraryType::Unresolved)),
        ],
        project_file_dependency_groups: Some(vec![(
            "net8.0".to_string(),
            vec!["Serilog.Sinks.Console >= 6.1.1".to_string(), "Unknown >= 1.0.0".to_string()],
        )]),
        project: Some(ProjectInfo {
            version: Some("1.0.0".to_string()),
            restore: Some(AssetsRestore {
                project_unique_name: None,
                project_name: None,
                project_path: Some("/src/console1/console1.csproj".to_string()),
                packages_path: None,
                output_path: None,
            }),
        }),
    }
}

#[test]
fn test_parse_project_assets_json() {
    let graph = create_dependency_graph_from_assets(sample_assets());

    let mut serilog_id = None;
    let mut serilog_console_id = None;
    let mut serilog_debug_id = None;
    for (id, info) in graph.iter() {
        match info {
            DependencyInfo::Package(_) => {
                if info.name() == "Serilog" {
                    assert_eq!(info.version(), Some("4.0.0"));
                    serilog_id = Some(id);
                }
                if info.name() == "Serilog.Sinks.Console" && info.version() == Some("6.1.1") {
                    serilog_console_id = Some(id);
                }
                if info.name() == "Serilog.Sinks.Debug" {
                    serilog_debug_id = Some(id);
                }
            }
            DependencyInfo::Project(_) => {}
        }
    }
    assert!(serilog_id.is_some());
    assert!(serilog_console_id.is_some());
    assert!(serilog_debug_id.is_some());

    let framework = Framework::new("net8.0".to_string());
    let deps = graph.get_direct_dependencies_in_framework(serilog_console_id.unwrap(), &framework).unwrap();
    assert!(deps.iter().any(|edge| edge.to() == serilog_id.unwrap()));

    let project = find(&graph, "/src/console1/console1.csproj", Some("1.0.0")).unwrap();
    assert_eq!(project, DependencyId::new(0));
    let direct = graph.get_direct_dependencies_in_framework(project, &framework).unwrap();
    assert_eq!(direct.len(), 1);
    assert_eq!(direct[0].to(), serilog_console_id.unwrap());
    // The reference assembly and the unresolved library are not in the graph.
    assert!(find(&graph, "System.Ref", Some("1.0.0")).is_none());
    assert!(find(&graph, "Mystery", Some("1.0.0")).is_none());
    assert_eq!(graph.iter().len(), 5);
}

#[test]
fn test_parse_project_assets_includes_all_frameworks() {
    let graph = create_dependency_graph_from_assets(sample_assets());
    let frameworks: Vec<&Framework> = graph.iter_frameworks().iter().collect();
    assert!(frameworks.iter().any(|f| f.name() == "net8.0"), "Should have net8.0 framework");
    assert!(frameworks.iter().any(|f| f.name() == "net9.0"), "Should have net9.0 framework");
}

#[test]
fn assets_without_project_skip_dependency_groups() {
    let mut assets = sample_assets();
    assets.project = None;
    let graph = create_dependency_graph_from_assets(assets);
    assert!(find(&graph, "/src/console1/console1.csproj", Some("1.0.0")).is_none());
    assert_eq!(graph.iter().len(), 4);
}

#[test]
fn blank_requirements_are_refused_up_front() {
    assert_eq!(
        try_parse_dep_requirement("Serilog >= 4.0.0".to_string()),
        Some(("Serilog".to_string(), Some("4.0.0".to_string())))
    );
    assert_eq!(try_parse_dep_requirement("Serilog".to_string()), Some(("Serilog".to_string(), None)));
    assert_eq!(try_parse_dep_requirement(" \u{3000}\t".to_string()), None);

    let g = try_create_dependency_graph_from_assets(sample_assets()).unwrap();
    assert_eq!(g.iter().len(), 5);
    let mut blank = sample_assets();
    blank.project_file_dependency_groups = Some(vec![("net8.0".to_string(), vec!["  ".to_string()])]);
    assert!(try_create_dependency_graph_from_assets(blank).is_none());
    let mut no_project = sample_assets();
    no_project.project_file_dependency_groups = Some(vec![("net8.0".to_string(), vec!["  ".to_string()])]);
    no_project.project = None;
    assert_eq!(try_create_dependency_graph_from_assets(no_project).unwrap().iter().len(), 4);
}
