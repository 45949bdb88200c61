use dotnet_dependency_parser::legacy::graph::dependency_graph::{
    DependencyGraph, DependencyId, DependencyInfo, DependencyWithId, Framework,
};
use dotnet_dependency_parser::viewer::transform::{display_text_with_stem, get_display_text};
use dotnet_dependency_parser::legacy::graph::{
    DependencyGraph as NumberingGraph, DependencyInfo as NumberedInfo, IncrementingIdFactory, PackageId,
};

#[test]
fn test_dependency_id_equality() {
    let id1 = DependencyId::ProjectId("/path/to/proj.csproj".to_string());
    let id2 = DependencyId::ProjectId("/path/to/proj.csproj".to_string());
    let id3 = DependencyId::ProjectId("/path/to/other.csproj".to_string());

    assert_eq!(id1, id2);
    assert_ne!(id1, id3);
}

#[test]
fn dependency_graph_test_package_id_equality() {
    let id1 = DependencyId::PackageId("Package".to_string(), Some("1.0.0".to_string()));
    let id2 = DependencyId::PackageId("Package".to_string(), Some("1.0.0".to_string()));
    let id3 = DependencyId::PackageId("Package".to_string(), Some("2.0.0".to_string()));
    let id4 = DependencyId::PackageId("Package".to_string(), None);

    assert_eq!(id1, id2);
    assert_ne!(id1, id3);
    assert_ne!(id1, id4);
    assert_ne!(id3, id4);
}

#[test]
fn keyed_graph_adds_each_dependency_once() {
    let mut g = DependencyGraph::new();
    let p = g.add_project("/src/app.csproj".to_string(), Some("1.0".to_string()));
    assert_eq!(p, DependencyId::ProjectId("/src/app.csproj".to_string()));
    let again = g.add_project("/src/app.csproj".to_string(), Some("2.0".to_string()));
    assert_eq!(again, p);
    let k = g.add_package("Serilog".to_string(), Some("3.0.1".to_string()));
    assert_eq!(k, DependencyId::PackageId("Serilog".to_string(), Some("3.0.1".to_string())));
    let all = g.iter();
    assert_eq!(all.len(), 2);
    assert_eq!(*all[0].0, p);
    assert_eq!(*all[1].0, k);
    let info = g.get(&p).unwrap();
    assert_eq!(info.get_name(), "/src/app.csproj");
    assert_eq!(info.get_version(), Some(&"1.0".to_string()));
    assert_eq!(info.id(), p);
    assert!(g.get(&DependencyId::ProjectId("/nope.csproj".to_string())).is_none());
    let same = DependencyGraph::default();
    assert!(same.iter().is_empty());
    assert!(same.iter_frameworks().is_empty());
}

#[test]
fn keyed_graph_relations_and_frameworks() {
    let mut g = DependencyGraph::new();
    let app = g.add_project("/src/app.csproj".to_string(), None);
    let lib = g.add_project("/src/lib.csproj".to_string(), None);
    let log = g.add_package("Serilog".to_string(), Some("3.0.1".to_string()));
    let net8 = Framework::new("net8.0".to_string());
    let net7 = Framework::new("net7.0".to_string());
    assert!(g.add_relation(app.clone(), lib.clone(), net8.clone()).is_ok());
    assert!(g.add_relation(app.clone(), log.clone(), net7.clone()).is_ok());
    assert!(g.add_relation(lib.clone(), log.clone(), net8.clone()).is_ok());
    let missing = DependencyId::PackageId("Missing".to_string(), None);
    assert!(g.add_relation(app.clone(), missing.clone(), net8.clone()).is_err());
    assert!(g.add_relation(missing, app.clone(), net8.clone()).is_err());

    let deps8 = g.get_direct_dependencies_in_framework(&app, net8.clone());
    assert_eq!(deps8.len(), 1);
    assert_eq!(*deps8[0].get_to(), lib);
    assert_eq!(*deps8[0].get_id(), lib);
    assert_eq!(*deps8[0].get_from(), app);
    assert_eq!(deps8[0].get_framework().get_name(), "net8.0");
    let deps7 = g.get_direct_dependencies_in_framework(&app, net7.clone());
    assert_eq!(deps7.len(), 1);
    assert_eq!(*deps7[0].get_to(), log);

    let rev = g.get_direct_reverse_dependencies(&log);
    let froms: Vec<DependencyId> = rev.iter().map(|e| e.get_from().clone()).collect();
    assert_eq!(froms, vec![lib.clone(), app.clone()]);
    assert!(g.get_direct_reverse_dependencies(&app).is_empty());

    let names: Vec<&str> = g.iter_frameworks().iter().map(|f| f.get_name()).collect();
    assert_eq!(names, vec!["net8.0", "net7.0"]);
}

#[test]
fn keyed_graph_get_or_create() {
    let mut g = DependencyGraph::new();
    g.add_package("Serilog".to_string(), Some("3.0.1".to_string()));
    g.add_project("/src/app.csproj".to_string(), Some("1.0".to_string()));

    let found = g.get_or_create("Serilog", Some("3.0.1".to_string())).unwrap();
    assert_eq!(found.get_version(), Some(&"3.0.1".to_string()));
    assert_eq!(g.iter().len(), 2);

    let created = g.get_or_create("Serilog", Some("4.0.0".to_string())).unwrap();
    assert_eq!(created.get_name(), "Serilog");
    match created {
        DependencyInfo::Package(p) => {
            assert_eq!(p.version, Some("4.0.0".to_string()));
        }
        DependencyInfo::Project(_) => panic!("expected a package"),
    }
    assert_eq!(g.iter().len(), 3);

    let project = g.get_or_create("/src/app.csproj", Some("2.0".to_string())).unwrap();
    assert_eq!(project.get_version(), Some(&"1.0".to_string()));
    assert_eq!(g.iter().len(), 3);

    assert!(g.get_or_create("Unknown", None).is_none());
    assert_eq!(g.iter().len(), 3);
}

#[test]
fn numbering_graph_starts_without_lists() {
    let g = NumberingGraph::new();
    let key = NumberedInfo::Package(PackageId { name: "Serilog".to_string(), version: None });
    assert!(g.get_direct_deps(&key).is_none());
    let project = NumberedInfo::Project { path: "/src/app.csproj".to_string() };
    assert!(g.get_direct_deps(&project).is_none());
    assert_ne!(key, project);
    assert_eq!(key.duplicate(), key);
}

#[test]
fn id_factory_counts_up() {
    let mut f = IncrementingIdFactory::new();
    assert_eq!(f.get_new_id().id, 0);
    assert_eq!(f.get_new_id().id, 1);
    assert_eq!(f.get_new_id().id, 2);
}

#[test]
fn display_text_of_projects_and_packages() {
    let mut g = DependencyGraph::new();
    let p = g.add_project("/src/app/App.Web.csproj".to_string(), None);
    let k = g.add_package("Serilog".to_string(), Some("3.0.1".to_string()));
    let n = g.add_package("Polly".to_string(), None);
    assert_eq!(get_display_text(g.get(&p).unwrap()), "App.Web");
    assert_eq!(get_display_text(g.get(&k).unwrap()), "Serilog@3.0.1");
    assert_eq!(get_display_text(g.get(&n).unwrap()), "Polly@");
    assert_eq!(display_text_with_stem(g.get(&p).unwrap(), None), "/src/app/App.Web.csproj");
    assert_eq!(display_text_with_stem(g.get(&p).unwrap(), Some("x".to_string())), "x");
    assert_eq!(display_text_with_stem(g.get(&k).unwrap(), Some("x".to_string())), "Serilog@3.0.1");
    let q = g.add_project("".to_string(), None);
    assert_eq!(get_display_text(g.get(&q).unwrap()), "");
}
