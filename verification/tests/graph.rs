use dotnet_dependency_parser::graph::{
    DependencyGraph, DependencyGraphError, DependencyId, DependencyInfo, Framework, SerializableGraph,
    SerializableGraphError,
};
use std::collections::HashSet;

#[test]
fn test_new_graph_is_empty() {
    let graph = DependencyGraph::new();
    assert_eq!(graph.iter().len(), 0);
}

#[test]
fn test_add_project() {
    let mut graph = DependencyGraph::new();
    let project_path = "/path/to/project.csproj".to_string();

    let id = graph.add_project(project_path.clone(), None).unwrap();

    assert_eq!(graph.iter().len(), 1);

    let dep_info = graph.get(id).expect("Project should exist");
    match dep_info {
        DependencyInfo::Project(_) => {
            assert_eq!(dep_info.name(), project_path);
        }
        _ => panic!("Expected Project dependency"),
    }
}

#[test]
fn test_add_multiple_projects() {
    let mut graph = DependencyGraph::new();

    let proj1 = graph.add_project("/path/to/proj1.csproj".to_string(), None).unwrap();
    let proj2 = graph.add_project("/path/to/proj2.csproj".to_string(), None).unwrap();
    let proj3 = graph.add_project("/path/to/proj3.csproj".to_string(), None).unwrap();

    assert_eq!(graph.iter().len(), 3);
    assert!(graph.get(proj1).is_some());
    assert!(graph.get(proj2).is_some());
    assert!(graph.get(proj3).is_some());
}

#[test]
fn test_add_duplicate_project_returns_same_id() {
    let mut graph = DependencyGraph::new();
    let project_path = "/path/to/project.csproj".to_string();

    let id1 = graph.add_project(project_path.clone(), None).unwrap();
    let id2 = graph.add_project(project_path.clone(), None).unwrap();

    assert_eq!(graph.iter().len(), 1);
    assert_eq!(id1, id2);
}

#[test]
fn test_add_package_with_version() {
    let mut graph = DependencyGraph::new();
    let package_name = "Newtonsoft.Json".to_string();
    let version = Some("13.0.1".to_string());

    let id = graph.add_package(package_name.clone(), version.clone()).unwrap();

    assert_eq!(graph.iter().len(), 1);

    let dep_info = graph.get(id).expect("Package should exist");
    match dep_info {
        DependencyInfo::Package(_) => {
            assert_eq!(dep_info.name(), package_name);
            assert_eq!(dep_info.version(), version.as_deref());
        }
        _ => panic!("Expected Package dependency"),
    }
}

#[test]
fn test_add_package_without_version() {
    let mut graph = DependencyGraph::new();
    let package_name = "MyPackage".to_string();

    let id = graph.add_package(package_name.clone(), None).unwrap();

    assert_eq!(graph.iter().len(), 1);

    let dep_info = graph.get(id).expect("Package should exist");
    match dep_info {
        DependencyInfo::Package(_) => {
            assert_eq!(dep_info.name(), package_name);
            assert_eq!(dep_info.version(), None);
        }
        _ => panic!("Expected Package dependency"),
    }
}

#[test]
fn test_add_duplicate_package_returns_same_id() {
    let mut graph = DependencyGraph::new();
    let package_name = "Newtonsoft.Json".to_string();
    let version = Some("1.0.0".to_string());

    let id1 = graph.add_package(package_name.clone(), version.clone()).unwrap();
    let id2 = graph.add_package(package_name.clone(), version.clone()).unwrap();

    assert_eq!(graph.iter().len(), 1);
    assert_eq!(id1, id2);
}

#[test]
fn test_add_duplicate_package_without_version_returns_same_id() {
    let mut graph = DependencyGraph::new();
    let package_name = "Newtonsoft.Json".to_string();
    let version = None;

    let id1 = graph.add_package(package_name.clone(), version.clone()).unwrap();
    let id2 = graph.add_package(package_name.clone(), version.clone()).unwrap();

    assert_eq!(graph.iter().len(), 1);
    assert_eq!(id1, id2);
}

#[test]
fn test_different_package_versions_are_different() {
    let mut graph = DependencyGraph::new();
    let package_name = "Newtonsoft.Json".to_string();

    let id1 = graph.add_package(package_name.clone(), Some("13.0.1".to_string())).unwrap();
    let id2 = graph.add_package(package_name.clone(), Some("12.0.3".to_string())).unwrap();
    let id3 = graph.add_package(package_name.clone(), None).unwrap();

    assert_eq!(graph.iter().len(), 3);
    assert_ne!(id1, id2);
    assert_ne!(id1, id3);
    assert_ne!(id2, id3);
}

#[test]
fn test_different_package_names_are_different() {
    let mut graph = DependencyGraph::new();
    let package_version = Some("1.2.3".to_string());

    let id1 = graph.add_package("package A".to_string(), package_version.clone()).unwrap();
    let id2 = graph.add_package("package B".to_string(), package_version.clone()).unwrap();

    assert_eq!(graph.iter().len(), 2);
    assert_ne!(id1, id2);
}

#[test]
fn test_add_relation_between_projects() {
    let mut graph = DependencyGraph::new();

    let proj1 = graph.add_project("/path/to/proj1.csproj".to_string(), None).unwrap();
    let proj2 = graph.add_project("/path/to/proj2.csproj".to_string(), None).unwrap();

    let framework = Framework::new("net8.0".to_string());

    let result = graph.add_relation(proj1, proj2, framework.clone());

    assert!(result.is_ok());

    let deps = graph.get_direct_dependencies_in_framework(proj1, &framework).unwrap();
    assert_eq!(deps.len(), 1);
    assert_eq!(deps[0].to(), proj2);
}

#[test]
fn test_add_relation_project_to_package() {
    let mut graph = DependencyGraph::new();

    let proj = graph.add_project("/path/to/proj.csproj".to_string(), None).unwrap();
    let pkg = graph.add_package("Newtonsoft.Json".to_string(), Some("13.0.1".to_string())).unwrap();

    let framework = Framework::new("net8.0".to_string());

    let result = graph.add_relation(proj, pkg, framework.clone());

    assert!(result.is_ok());

    let deps = graph.get_direct_dependencies_in_framework(proj, &framework).unwrap();
    assert_eq!(deps.len(), 1);
    assert_eq!(deps[0].to(), pkg);
}

#[test]
fn test_add_relation_with_nonexistent_source() {
    let mut graph = DependencyGraph::new();

    let proj = graph.add_project("/path/to/proj.csproj".to_string(), None).unwrap();
    let fake_id = DependencyId::new(12);

    let framework = Framework::new("net8.0".to_string());

    let result = graph.add_relation(fake_id, proj, framework);

    assert!(result.is_err());
}

#[test]
fn test_add_relation_with_nonexistent_target() {
    let mut graph = DependencyGraph::new();

    let proj = graph.add_project("/path/to/proj.csproj".to_string(), None).unwrap();
    let fake_id = DependencyId::new(67);

    let framework = Framework::new("net8.0".to_string());

    let result = graph.add_relation(proj, fake_id, framework);

    assert!(result.is_err());
}

#[test]
fn test_multiple_relations_same_framework() {
    let mut graph = DependencyGraph::new();

    let proj = graph.add_project("/path/to/proj.csproj".to_string(), None).unwrap();
    let pkg1 = graph.add_package("Package1".to_string(), None).unwrap();
    let pkg2 = graph.add_package("Package2".to_string(), None).unwrap();
    let pkg3 = graph.add_package("Package3".to_string(), None).unwrap();

    let framework = Framework::new("net8.0".to_string());

    graph.add_relation(proj, pkg1, framework.clone()).unwrap();
    graph.add_relation(proj, pkg2, framework.clone()).unwrap();
    graph.add_relation(proj, pkg3, framework.clone()).unwrap();

    let deps = graph.get_direct_dependencies_in_framework(proj, &framework).unwrap();
    assert_eq!(deps.len(), 3);
}

#[test]
fn test_relations_with_different_frameworks() {
    let mut graph = DependencyGraph::new();

    let proj = graph.add_project("/path/to/proj.csproj".to_string(), None).unwrap();
    let pkg1 = graph.add_package("Package1".to_string(), None).unwrap();
    let pkg2 = graph.add_package("Package2".to_string(), None).unwrap();

    let net8 = Framework::new("net8.0".to_string());
    let net7 = Framework::new("net7.0".to_string());

    graph.add_relation(proj, pkg1, net8.clone()).unwrap();
    graph.add_relation(proj, pkg2, net7.clone()).unwrap();

    let deps_net8 = graph.get_direct_dependencies_in_framework(proj, &net8).unwrap();
    let deps_net7 = graph.get_direct_dependencies_in_framework(proj, &net7).unwrap();

    assert_eq!(deps_net8.len(), 1);
    assert_eq!(deps_net8[0].to(), pkg1);

    assert_eq!(deps_net7.len(), 1);
    assert_eq!(deps_net7[0].to(), pkg2);
}

#[test]
fn test_edge_from_and_to_are_correct() {
    let mut graph = DependencyGraph::new();

    let proj1 = graph.add_project("/path/to/proj1.csproj".to_string(), None).unwrap();
    let proj2 = graph.add_project("/path/to/proj2.csproj".to_string(), None).unwrap();

    let framework = Framework::new("net8.0".to_string());

    graph.add_relation(proj1, proj2, framework.clone()).unwrap();

    let deps = graph.get_direct_dependencies_in_framework(proj1, &framework).unwrap();

    assert_eq!(deps.len(), 1);
    let edge = deps[0];

    assert_eq!(edge.from(), proj1);
    assert_eq!(edge.to(), proj2);
}

#[test]
fn test_edge_from_to_with_project_and_package() {
    let mut graph = DependencyGraph::new();

    let proj = graph.add_project("/path/to/proj.csproj".to_string(), None).unwrap();
    let pkg = graph.add_package("Newtonsoft.Json".to_string(), Some("13.0.1".to_string())).unwrap();

    let framework = Framework::new("net8.0".to_string());

    graph.add_relation(proj, pkg, framework.clone()).unwrap();

    let deps = graph.get_direct_dependencies_in_framework(proj, &framework).unwrap();

    assert_eq!(deps.len(), 1);
    let edge = deps[0];

    assert_eq!(edge.from(), proj);
    assert_eq!(edge.to(), pkg);
}

#[test]
fn test_multiple_edges_from_same_source() {
    let mut graph = DependencyGraph::new();

    let proj = graph.add_project("/path/to/proj.csproj".to_string(), None).unwrap();
    let pkg1 = graph.add_package("Package1".to_string(), None).unwrap();
    let pkg2 = graph.add_package("Package2".to_string(), None).unwrap();
    let pkg3 = graph.add_package("Package3".to_string(), None).unwrap();

    let framework = Framework::new("net8.0".to_string());

    graph.add_relation(proj, pkg1, framework.clone()).unwrap();
    graph.add_relation(proj, pkg2, framework.clone()).unwrap();
    graph.add_relation(proj, pkg3, framework.clone()).unwrap();

    let deps = graph.get_direct_dependencies_in_framework(proj, &framework).unwrap();

    assert_eq!(deps.len(), 3);

    for edge in &deps {
        assert_eq!(edge.from(), proj);
    }

    let target_ids: Vec<DependencyId> = deps.iter().map(|e| e.to()).collect();
    assert!(target_ids.contains(&pkg1));
    assert!(target_ids.contains(&pkg2));
    assert!(target_ids.contains(&pkg3));
}

#[test]
fn test_reverse_dependencies_edge_from_to() {
    let mut graph = DependencyGraph::new();

    let proj1 = graph.add_project("/path/to/proj1.csproj".to_string(), None).unwrap();
    let proj2 = graph.add_project("/path/to/proj2.csproj".to_string(), None).unwrap();
    let pkg = graph.add_package("SharedPackage".to_string(), None).unwrap();

    let framework = Framework::new("net8.0".to_string());

    graph.add_relation(proj1, pkg, framework.clone()).unwrap();
    graph.add_relation(proj2, pkg, framework.clone()).unwrap();

    let reverse_deps = graph.get_direct_reverse_dependencies(pkg).unwrap();

    assert_eq!(reverse_deps.len(), 2);

    for edge in &reverse_deps {
        assert_eq!(edge.to(), pkg);
    }

    let source_ids: Vec<DependencyId> = reverse_deps.iter().map(|e| e.from()).collect();
    assert!(source_ids.contains(&proj1));
    assert!(source_ids.contains(&proj2));
}

#[test]
fn test_chain_of_dependencies_edge_consistency() {
    let mut graph = DependencyGraph::new();

    let app = graph.add_project("/path/to/app.csproj".to_string(), None).unwrap();
    let lib = graph.add_project("/path/to/lib.csproj".to_string(), None).unwrap();
    let pkg = graph.add_package("CorePackage".to_string(), Some("1.0.0".to_string())).unwrap();

    let framework = Framework::new("net8.0".to_string());

    graph.add_relation(app, lib, framework.clone()).unwrap();
    graph.add_relation(lib, pkg, framework.clone()).unwrap();

    let app_deps = graph.get_direct_dependencies_in_framework(app, &framework).unwrap();
    assert_eq!(app_deps.len(), 1);
    assert_eq!(app_deps[0].from(), app);
    assert_eq!(app_deps[0].to(), lib);

    let lib_deps = graph.get_direct_dependencies_in_framework(lib, &framework).unwrap();
    assert_eq!(lib_deps.len(), 1);
    assert_eq!(lib_deps[0].from(), lib);
    assert_eq!(lib_deps[0].to(), pkg);
}

#[test]
fn test_get_reverse_dependencies() {
    let mut graph = DependencyGraph::new();

    let proj1 = graph.add_project("/path/to/proj1.csproj".to_string(), None).unwrap();
    let proj2 = graph.add_project("/path/to/proj2.csproj".to_string(), None).unwrap();
    let pkg = graph.add_package("SharedPackage".to_string(), None).unwrap();

    let framework = Framework::new("net8.0".to_string());

    graph.add_relation(proj1, pkg, framework.clone()).unwrap();
    graph.add_relation(proj2, pkg, framework.clone()).unwrap();

    let reverse_deps = graph.get_direct_reverse_dependencies(pkg).unwrap();
    assert_eq!(reverse_deps.len(), 2);

    let reverse_dep_ids: Vec<DependencyId> = reverse_deps.iter().map(|e| e.to()).collect();
    assert!(reverse_dep_ids.iter().all(|id| *id == pkg));
}

#[test]
fn test_no_reverse_dependencies_for_root_node() {
    let mut graph = DependencyGraph::new();

    let proj = graph.add_project("/path/to/proj.csproj".to_string(), None).unwrap();
    let pkg = graph.add_package("LeafPackage".to_string(), None).unwrap();

    let framework = Framework::new("net8.0".to_string());

    graph.add_relation(proj, pkg, framework.clone()).unwrap();

    let reverse_deps = graph.get_direct_reverse_dependencies(proj).unwrap();
    assert_eq!(reverse_deps.len(), 0);
}

#[test]
fn test_get_direct_dependencies_returns_error_for_nonexistent_dependency() {
    let graph = DependencyGraph::new();
    let fake_id = DependencyId::new(17);

    let non_existing_framework = Framework::new("net8.0".to_string());
    let result = graph.get_direct_dependencies_in_framework(fake_id, &non_existing_framework);

    assert!(result.is_err());
}

#[test]
fn test_get_reverse_dependencies_returns_error_for_nonexistent_dependency() {
    let graph = DependencyGraph::new();
    let fake_id = DependencyId::new(17);

    let result = graph.get_direct_reverse_dependencies(fake_id);

    assert!(result.is_err());
}

#[test]
fn test_iter_frameworks() {
    let mut graph = DependencyGraph::new();

    let proj1 = graph.add_project("/path/to/proj1.csproj".to_string(), None).unwrap();
    let proj2 = graph.add_project("/path/to/proj2.csproj".to_string(), None).unwrap();

    let net8 = Framework::new("net8.0".to_string());
    let net7 = Framework::new("net7.0".to_string());
    let net6 = Framework::new("net6.0".to_string());

    graph.add_relation(proj1, proj2, net8.clone()).unwrap();
    graph.add_relation(proj1, proj2, net7.clone()).unwrap();
    graph.add_relation(proj1, proj2, net6.clone()).unwrap();

    let frameworks = graph.iter_frameworks();
    assert_eq!(frameworks.len(), 3);
}

#[test]
fn test_iter_all_dependencies() {
    let mut graph = DependencyGraph::new();

    let _proj1 = graph.add_project("/path/to/proj1.csproj".to_string(), None).unwrap();
    let _proj2 = graph.add_project("/path/to/proj2.csproj".to_string(), None).unwrap();
    let _pkg1 = graph.add_package("Package1".to_string(), Some("1.0.0".to_string())).unwrap();
    let _pkg2 = graph.add_package("Package2".to_string(), None).unwrap();

    let all_deps = graph.iter();
    assert_eq!(all_deps.len(), 4);
}

#[test]
fn test_package_id_equality() {
    let id1 = DependencyId::new(1);
    let id2 = DependencyId::new(1);
    let id3 = DependencyId::new(2);
    let id4 = DependencyId::new(5);

    assert_eq!(id1, id2);
    assert_ne!(id1, id3);
    assert_ne!(id1, id4);
    assert_ne!(id3, id4);
}

#[test]
fn test_framework_equality() {
    let fw1 = Framework::new("net8.0".to_string());
    let fw2 = Framework::new("net8.0".to_string());
    let fw3 = Framework::new("net7.0".to_string());

    assert_eq!(fw1, fw2);
    assert_ne!(fw1, fw3);
}

#[test]
fn test_complex_dependency_graph() {
    let mut graph = DependencyGraph::new();

    let app = graph.add_project("/path/to/app.csproj".to_string(), None).unwrap();
    let lib1 = graph.add_project("/path/to/lib1.csproj".to_string(), None).unwrap();
    let lib2 = graph.add_project("/path/to/lib2.csproj".to_string(), None).unwrap();

    let pkg1 = graph.add_package("Newtonsoft.Json".to_string(), Some("13.0.1".to_string())).unwrap();
    let pkg2 = graph.add_package("Serilog".to_string(), Some("3.0.1".to_string())).unwrap();
    let pkg3 = graph.add_package("EntityFramework".to_string(), Some("6.4.4".to_string())).unwrap();

    let framework = Framework::new("net8.0".to_string());

    graph.add_relation(app, lib1, framework.clone()).unwrap();
    graph.add_relation(app, lib2, framework.clone()).unwrap();
    graph.add_relation(app, pkg1, framework.clone()).unwrap();
    graph.add_relation(lib1, pkg2, framework.clone()).unwrap();
    graph.add_relation(lib1, pkg3, framework.clone()).unwrap();
    graph.add_relation(lib2, pkg1, framework.clone()).unwrap();

    let app_deps = graph.get_direct_dependencies_in_framework(app, &framework).unwrap();
    assert_eq!(app_deps.len(), 3);

    let lib1_deps = graph.get_direct_dependencies_in_framework(lib1, &framework).unwrap();
    assert_eq!(lib1_deps.len(), 2);

    let lib2_deps = graph.get_direct_dependencies_in_framework(lib2, &framework).unwrap();
    assert_eq!(lib2_deps.len(), 1);

    let pkg1_reverse = graph.get_direct_reverse_dependencies(pkg1).unwrap();
    assert_eq!(pkg1_reverse.len(), 2);
}

#[test]
fn test_empty_graph_no_frameworks() {
    let graph = DependencyGraph::new();
    let frameworks = graph.iter_frameworks();
    assert_eq!(frameworks.len(), 0);
}

#[test]
fn test_get_nonexistent_dependency() {
    let graph = DependencyGraph::new();
    let fake_id = DependencyId::new(5);

    assert!(graph.get(fake_id).is_none());
}

#[test]
fn test_merge_graphs() {
    let mut graph1 = DependencyGraph::new();
    let mut graph2 = DependencyGraph::new();

    let proj1 = graph1.add_project("proj1.csproj".to_string(), None).unwrap();
    let pkg1 = graph1.add_package("Package1".to_string(), Some("1.0.0".to_string())).unwrap();

    let proj2 = graph2.add_project("proj2.csproj".to_string(), None).unwrap();
    let pkg2 = graph2.add_package("Package2".to_string(), Some("2.0.0".to_string())).unwrap();

    let framework = Framework::new("net8.0".to_string());
    graph1.add_relation(proj1, pkg1, framework.clone()).unwrap();
    graph2.add_relation(proj2, pkg2, framework.clone()).unwrap();

    assert_eq!(graph1.iter().len(), 2);
    assert_eq!(graph2.iter().len(), 2);

    graph1.merge(graph2).unwrap();

    assert_eq!(graph1.iter().len(), 4);

    let deps: Vec<&str> = graph1.iter().iter().map(|(_, info)| info.name()).collect();
    assert!(deps.contains(&"proj1.csproj"));
    assert!(deps.contains(&"Package1"));
    assert!(deps.contains(&"proj2.csproj"));
    assert!(deps.contains(&"Package2"));

    assert!(graph1.get(proj1).expect("Id from old graph should work").name() == "proj1.csproj");
    assert!(graph1.get(proj1).expect("Id from old graph should work").version().is_none());
    assert!(graph1.get(pkg1).expect("Id from old graph should work").name() == "Package1");
    assert!(graph1.get(pkg1).expect("Id from old graph should work").version() == Some("1.0.0"));
}

#[test]
fn test_merge_graphs_with_common_dependencies() {
    let mut graph1 = DependencyGraph::new();
    let mut graph2 = DependencyGraph::new();

    let proj1 = graph1.add_project("proj1.csproj".to_string(), None).unwrap();
    let pkg1 = graph1.add_package("Package1".to_string(), Some("1.0.0".to_string())).unwrap();

    let proj2 = graph2.add_project("proj2.csproj".to_string(), None).unwrap();
    let pkg2 = graph2.add_package("Package1".to_string(), Some("1.0.0".to_string())).unwrap();

    let framework = Framework::new("net8.0".to_string());
    graph1.add_relation(proj1, pkg1, framework.clone()).unwrap();
    graph2.add_relation(proj2, pkg2, framework.clone()).unwrap();

    assert_eq!(graph1.iter().len(), 2);
    assert_eq!(graph2.iter().len(), 2);

    graph1.merge(graph2).unwrap();

    assert_eq!(graph1.iter().len(), 3);

    let deps: Vec<&str> = graph1.iter().iter().map(|(_, info)| info.name()).collect();
    assert!(deps.contains(&"proj1.csproj"));
    assert!(deps.contains(&"Package1"));
    assert!(deps.contains(&"proj2.csproj"));

    let proj2 = graph1.iter().iter().find(|x| x.1.name() == "proj2.csproj").unwrap().0;

    let reverse_edges = graph1.get_direct_reverse_dependencies(pkg1).unwrap();

    assert_eq!(reverse_edges.len(), 2);

    let expected_sources: HashSet<DependencyId> = [proj1, proj2].into_iter().collect();
    let actual_sources: HashSet<DependencyId> = reverse_edges.iter().map(|e| e.from()).collect();
    assert_eq!(expected_sources, actual_sources);

    for edge in &reverse_edges {
        assert_eq!(edge.to(), pkg1);
        assert_eq!(edge.framework(), &Framework::new("net8.0".to_string()));
    }
}

#[test]
fn test_merge_graphs_on_different_type_should_fail() {
    let mut graph1 = DependencyGraph::new();
    let mut graph2 = DependencyGraph::new();

    let proj1 = graph1.add_project("proj1.csproj".to_string(), None).unwrap();
    let pkg1 = graph1.add_package("Package1".to_string(), Some("1.0.0".to_string())).unwrap();

    let proj2 = graph2.add_package("proj1.csproj".to_string(), None).unwrap();
    let pkg2 = graph2.add_package("Package2".to_string(), Some("2.0.0".to_string())).unwrap();

    let framework = Framework::new("net8.0".to_string());
    graph1.add_relation(proj1, pkg1, framework.clone()).unwrap();
    graph2.add_relation(proj2, pkg2, framework.clone()).unwrap();

    assert_eq!(graph1.iter().len(), 2);
    assert_eq!(graph2.iter().len(), 2);

    let error = graph1.merge(graph2).unwrap_err();
    match error {
        DependencyGraphError::MergeFailed { reason, .. } => {
            assert!(reason.contains("type conflict"), "Expected type conflict, got: {}", reason);
        }
        DependencyGraphError::DifferentDependencyType => {}
        _ => panic!("Expected MergeFailed or DifferentDependencyType, got: {:?}", error),
    }
}

// Tests of this library beyond those above.

#[test]
fn merge_failure_leaves_graph_unchanged() {
    let mut graph1 = DependencyGraph::new();
    let mut graph2 = DependencyGraph::new();
    let a = graph1.add_project("shared".to_string(), None).unwrap();
    let b = graph1.add_package("Pkg".to_string(), None).unwrap();
    graph1.add_relation(a, b, Framework::new("net8.0".to_string())).unwrap();
    graph2.add_package("shared".to_string(), Some("1.0".to_string())).unwrap();

    match graph1.merge(graph2) {
        Err(DependencyGraphError::MergeFailed { name, reason }) => {
            assert_eq!(name, "shared");
            assert_eq!(reason, "type conflict");
        }
        other => panic!("unexpected {:?}", other),
    }
    assert_eq!(graph1.iter().len(), 2);
    assert_eq!(graph1.get_direct_dependencies_in_framework(a, &Framework::new("net8.0".to_string())).unwrap().len(), 1);
    assert_eq!(graph1.iter_frameworks().len(), 1);
}

#[test]
fn merge_relabels_relations_of_the_other_graph() {
    let mut graph1 = DependencyGraph::new();
    let x = graph1.add_package("X".to_string(), None).unwrap();
    let mut graph2 = DependencyGraph::new();
    let p = graph2.add_project("p".to_string(), None).unwrap();
    let x2 = graph2.add_package("X".to_string(), None).unwrap();
    graph2.add_relation(p, x2, Framework::new("net6.0".to_string())).unwrap();

    graph1.merge(graph2).unwrap();

    // p is new and takes the next identifier; X keeps its own.
    let merged_p = DependencyId::new(1);
    assert_eq!(graph1.get(merged_p).unwrap().name(), "p");
    let deps = graph1.get_direct_dependencies_in_framework(merged_p, &Framework::new("net6.0".to_string())).unwrap();
    assert_eq!(deps.len(), 1);
    assert_eq!(deps[0].to(), x);
    assert_eq!(graph1.iter_frameworks().len(), 1);
}

#[test]
fn adding_same_name_with_other_kind_is_refused() {
    let mut graph = DependencyGraph::new();
    graph.add_project("Lib".to_string(), None).unwrap();
    match graph.add_package("Lib".to_string(), Some("1.0".to_string())) {
        Err(DependencyGraphError::DifferentDependencyType) => {}
        other => panic!("unexpected {:?}", other),
    }
    assert_eq!(graph.iter().len(), 1);
}

#[test]
fn get_or_create_finds_adds_or_gives_nothing() {
    let mut graph = DependencyGraph::new();
    let a = graph.add_package("A".to_string(), Some("1.0".to_string())).unwrap();

    assert_eq!(graph.get_or_create_if_exists("A", Some("1.0".to_string())), Some(a));
    assert_eq!(graph.iter().len(), 1);

    let a2 = graph.get_or_create_if_exists("A", Some("2.0".to_string())).unwrap();
    assert_ne!(a2, a);
    assert_eq!(a2, DependencyId::new(1));
    let info = graph.get(a2).unwrap();
    assert!(!info.is_project());
    assert_eq!(info.version(), Some("2.0"));

    assert_eq!(graph.get_or_create_if_exists("B", None), None);
    assert_eq!(graph.iter().len(), 2);
}

#[test]
fn direct_dependencies_come_most_recent_first() {
    let mut graph = DependencyGraph::new();
    let p = graph.add_project("p".to_string(), None).unwrap();
    let a = graph.add_package("a".to_string(), None).unwrap();
    let b = graph.add_package("b".to_string(), None).unwrap();
    let fw = Framework::new("net8.0".to_string());
    graph.add_relation(p, a, fw.clone()).unwrap();
    graph.add_relation(p, b, Framework::new("net7.0".to_string())).unwrap();
    graph.add_relation(p, b, fw.clone()).unwrap();

    let deps = graph.get_direct_dependencies_in_framework(p, &fw).unwrap();
    let tos: Vec<DependencyId> = deps.iter().map(|e| e.to()).collect();
    assert_eq!(tos, vec![b, a]);
    assert_eq!(graph.get_direct_reverse_dependencies(b).unwrap().len(), 2);
}

#[test]
fn iter_lists_dependencies_by_identifier() {
    let mut graph = DependencyGraph::new();
    graph.add_project("p".to_string(), Some("2".to_string())).unwrap();
    graph.add_package("q".to_string(), None).unwrap();
    let listed: Vec<(u32, &str)> = graph.iter().iter().map(|(id, d)| (id.ix, d.name())).collect();
    assert_eq!(listed, vec![(0, "p"), (1, "q")]);
}

#[test]
fn serialization_round_trip_keeps_graph_and_metadata() {
    let mut graph = DependencyGraph::new();
    let p = graph.add_project("app.csproj".to_string(), Some("1.0".to_string())).unwrap();
    let a = graph.add_package("A".to_string(), Some("2.0".to_string())).unwrap();
    graph.add_relation(p, a, Framework::new("net8.0".to_string())).unwrap();

    let metadata = vec![(a, "visible"), (p, "hidden")];
    let serialized = graph.try_into_serializable(Some(metadata)).ok().unwrap();
    assert_eq!(serialized.nodes.len(), 2);
    assert_eq!(serialized.nodes[0].0, 0);
    assert_eq!(serialized.nodes[1].0, 1);
    assert_eq!(serialized.edges.len(), 1);
    assert_eq!(serialized.edges[0].0, 0);
    assert_eq!(serialized.edges[0].1, 1);
    assert_eq!(serialized.edges[0].2.name(), "net8.0");
    assert_eq!(serialized.node_metadata.as_ref().unwrap(), &vec![(1usize, "visible"), (0usize, "hidden")]);

    let (rebuilt, meta) = serialized.from_serializable().ok().unwrap();
    assert_eq!(rebuilt.iter().len(), 2);
    assert_eq!(rebuilt.get(p).unwrap().name(), "app.csproj");
    assert_eq!(rebuilt.get(p).unwrap().version(), Some("1.0"));
    assert_eq!(rebuilt.get(a).unwrap().name(), "A");
    let deps = rebuilt.get_direct_dependencies_in_framework(p, &Framework::new("net8.0".to_string())).unwrap();
    assert_eq!(deps.len(), 1);
    assert_eq!(deps[0].to(), a);
    assert_eq!(meta.unwrap(), vec![(a, "visible"), (p, "hidden")]);
}

#[test]
fn serialization_refuses_metadata_for_missing_ids() {
    let mut graph = DependencyGraph::new();
    let p = graph.add_project("app.csproj".to_string(), None).unwrap();
    let metadata = vec![(DependencyId::new(7), 1u8), (p, 2u8), (DependencyId::new(9), 3u8)];
    match graph.try_into_serializable(Some(metadata)) {
        Err(SerializableGraphError::DependencyNotFound(ids, g, meta)) => {
            assert_eq!(ids, vec![DependencyId::new(7), DependencyId::new(9)]);
            assert_eq!(g.iter().len(), 1);
            assert_eq!(meta.unwrap().len(), 3);
        }
        _ => panic!("expected DependencyNotFound"),
    }
}

#[test]
fn rebuilding_refuses_invalid_ids() {
    let s: SerializableGraph<u8> = SerializableGraph {
        nodes: vec![(3, DependencyInfo::Package(dotnet_dependency_parser::graph::PackageInfo { name: "A".to_string(), version: None }))],
        edges: vec![(3, 4, Framework::new("net8.0".to_string())), (5, 3, Framework::new("net8.0".to_string()))],
        node_metadata: Some(vec![(8, 1u8)]),
    };
    match s.from_serializable() {
        Err(SerializableGraphError::InvalidIds(ids, back)) => {
            assert_eq!(ids, vec![8, 5, 4]);
            assert_eq!(back.nodes.len(), 1);
        }
        _ => panic!("expected InvalidIds"),
    }
}

#[test]
fn rebuilding_reports_each_dependency_that_cannot_be_added() {
    let s: SerializableGraph<u8> = SerializableGraph {
        nodes: vec![
            (0, DependencyInfo::Project(dotnet_dependency_parser::graph::ProjectInfo { path: "X".to_string(), version: None })),
            (1, DependencyInfo::Package(dotnet_dependency_parser::graph::PackageInfo { name: "X".to_string(), version: None })),
            (2, DependencyInfo::Package(dotnet_dependency_parser::graph::PackageInfo { name: "X".to_string(), version: Some("1".to_string()) })),
        ],
        edges: vec![],
        node_metadata: None,
    };
    match s.from_serializable() {
        Err(SerializableGraphError::CouldntAddDeps(errors)) => {
            assert_eq!(errors.len(), 2);
            assert!(errors.iter().all(|e| matches!(e, DependencyGraphError::DifferentDependencyType)));
        }
        _ => panic!("expected CouldntAddDeps"),
    }
}

#[test]
fn rebuilding_uses_the_last_entry_of_a_repeated_index() {
    let s: SerializableGraph<u8> = SerializableGraph {
        nodes: vec![
            (5, DependencyInfo::Package(dotnet_dependency_parser::graph::PackageInfo { name: "A".to_string(), version: None })),
            (5, DependencyInfo::Package(dotnet_dependency_parser::graph::PackageInfo { name: "B".to_string(), version: None })),
            (6, DependencyInfo::Project(dotnet_dependency_parser::graph::ProjectInfo { path: "P".to_string(), version: None })),
        ],
        edges: vec![(6, 5, Framework::new("net8.0".to_string()))],
        node_metadata: Some(vec![(5, 9u8)]),
    };
    let (g, meta) = s.from_serializable().ok().unwrap();
    assert_eq!(g.iter().len(), 3);
    let p = DependencyId::new(2);
    let deps = g.get_direct_dependencies_in_framework(p, &Framework::new("net8.0".to_string())).unwrap();
    assert_eq!(deps.len(), 1);
    assert_eq!(g.get(deps[0].to()).unwrap().name(), "B");
    assert_eq!(meta.unwrap(), vec![(DependencyId::new(1), 9u8)]);
}

#[test]
fn default_graph_is_empty() {
    let g = DependencyGraph::default();
    assert!(g.iter().is_empty());
    assert!(g.iter_frameworks().is_empty());
}
