use dotnet_dependency_parser::graph::{DependencyGraph, DependencyId, Framework as GraphFramework};
use dotnet_dependency_parser::viewer::node_cache::group_packages_by_name;
use dotnet_dependency_parser::viewer::packages::{packages_to_show, sort_by_version};
use dotnet_dependency_parser::viewer::events::{InteractionController, InteractionEvent};
use dotnet_dependency_parser::viewer::edges::edges_to_draw;
use dotnet_dependency_parser::viewer::file_dialog::{FileAction, FileDialogHandler, FileMode};
use dotnet_dependency_parser::viewer::metrics::get_lines_count_with_max_length;
use dotnet_dependency_parser::viewer::panels::{
    apply_action_to_groups,
    compute_dependencies_to_show_from_groups, dependency_panel_prompt, handle_action, Action,
};
use dotnet_dependency_parser::viewer::parser::{select_parser, SupportedParser};
use dotnet_dependency_parser::viewer::project_tree::{Framework, Id, ProjectTree};
use dotnet_dependency_parser::viewer::search::{SearchKind, SearchOptions, Searcher};

#[test]
fn test_supported_parser_enumeration() {
    let all = SupportedParser::all();
    let exts: Vec<Vec<&str>> = all.iter().map(|p| p.extensions()).collect();
    assert!(exts.iter().any(|e| e.contains(&"nuget.dgspec.json")));
    assert!(exts.iter().any(|e| e.contains(&"project.assets.json")));
}

#[test]
fn test_try_parse_with_supported_parsers_unsupported() {
    let result = select_parser("foo.unknown.json");
    assert!(result.is_err());
    assert_eq!(result.unwrap_err().to_string(), "Unsupported file type");
}

#[test]
fn parser_is_chosen_by_file_name_ending() {
    assert_eq!(select_parser("obj/project.nuget.dgspec.json"), Ok(SupportedParser::Dgspec));
    assert_eq!(select_parser("obj/project.assets.json"), Ok(SupportedParser::ProjectAssets));
    assert!(SupportedParser::Dgspec.does_support_extension("nuget.dgspec.json"));
    assert!(!SupportedParser::Dgspec.does_support_extension("dgspec.json"));
    assert!(!SupportedParser::ProjectAssets.does_support_extension(""));
}

#[test]
fn project_tree_links_and_reverse_links() {
    let mut tree = ProjectTree::new();
    let app = tree.insert("app".to_string());
    let lib = tree.insert("lib".to_string());
    let again = tree.insert("app".to_string());
    assert!(again.same(&app));
    assert_eq!(tree.iter().len(), 2);

    let net8 = Framework::new("net8.0".to_string());
    tree.link_projects(&app, &lib, &net8);
    tree.link_projects(&app, &lib, &net8);

    let app_project = tree.get(&app).unwrap();
    assert_eq!(app_project.frameworks.len(), 1);
    assert_eq!(app_project.frameworks[0].0.id, "net8.0");
    assert_eq!(app_project.frameworks[0].1.dependencies.len(), 1);
    assert!(app_project.frameworks[0].1.dependencies[0].same(&lib));

    let lib_project = tree.get(&lib).unwrap();
    assert_eq!(lib_project.reverse_dependencies.len(), 1);
    assert_eq!(lib_project.reverse_dependencies[0].0.id, "net8.0");
    assert!(lib_project.reverse_dependencies[0].1.same(&app));

    assert_eq!(tree.frameworks_iter().len(), 1);
    assert!(tree.get(&Id::new("missing".to_string())).is_none());
}

#[test]
fn empty_pattern_matches_everything() {
    let s = Searcher::new(&SearchOptions::new(), "   ");
    assert!(s.is_match("anything"));
    assert!(s.is_valid());
    assert_eq!(s.match_range("anything"), None);
}

#[test]
fn text_search_ignores_case_and_escapes() {
    let s = Searcher::new(&SearchOptions::new(), " serilog.sinks ");
    assert_eq!(s.pattern, "serilog.sinks");
    assert!(s.is_match("Serilog.Sinks.Console"));
    assert!(!s.is_match("SerilogXSinks"));
    assert_eq!(s.match_range("My.Serilog.Sinks"), Some((3, 16)));
}

#[test]
fn whole_word_and_case_sensitive_search() {
    let options = SearchOptions { kind: SearchKind::Text, whole_word: true, case_sensitive: true };
    let s = Searcher::new(&options, "Json");
    assert!(s.is_match("Newtonsoft Json"));
    assert!(!s.is_match("Newtonsoft.JsonX"));
    assert!(!s.is_match("newtonsoft json"));
}

#[test]
fn invalid_regex_matches_everything_and_is_not_valid() {
    let options = SearchOptions { kind: SearchKind::Regex, whole_word: false, case_sensitive: false };
    let s = Searcher::new(&options, "foo(");
    assert!(!s.is_valid());
    assert!(s.is_match("bar"));
    assert_eq!(s.match_range("foo("), None);
    let r = Searcher::new(&options, "^Ser.*log$");
    assert!(r.is_valid());
    assert!(r.is_match("serilog"));
    assert!(!r.is_match("serilog.x"));
}

#[test]
fn events_are_applied_in_order() {
    let mut controller = InteractionController::new();
    let mut visible: Vec<DependencyId> = vec![DependencyId::new(1)];
    controller.publish(InteractionEvent::Highlight(DependencyId::new(4)));
    controller.publish(InteractionEvent::Select(DependencyId::new(2)));
    controller.publish(InteractionEvent::Select(DependencyId::new(3)));
    controller.publish(InteractionEvent::SelectFramework(GraphFramework::new("net8.0".to_string())));
    controller.process_pending(&mut visible);

    assert_eq!(controller.selected_dependency(), Some(DependencyId::new(3)));
    assert_eq!(controller.panned_dependency(), Some(DependencyId::new(3)));
    assert_eq!(controller.highlighted_dependency(), Some(DependencyId::new(4)));
    assert_eq!(controller.selected_framework().unwrap().name(), "net8.0");
    assert_eq!(visible, vec![DependencyId::new(1), DependencyId::new(3)]);

    controller.process_pending(&mut visible);
    assert_eq!(controller.highlighted_dependency(), None);
    assert_eq!(controller.panned_dependency(), None);
    assert_eq!(controller.selected_dependency(), Some(DependencyId::new(3)));
    assert_eq!(visible, vec![DependencyId::new(1), DependencyId::new(3)]);
}

#[test]
fn lines_are_counted_as_str_lines_counts_them() {
    assert_eq!(get_lines_count_with_max_length(""), (0, 0));
    assert_eq!(get_lines_count_with_max_length("abc"), (1, 3));
    assert_eq!(get_lines_count_with_max_length("abc\n"), (1, 3));
    assert_eq!(get_lines_count_with_max_length("a\r\nbcd\n\nxy"), (4, 3));
    assert_eq!(get_lines_count_with_max_length("ab\r"), (1, 3));
    assert_eq!(get_lines_count_with_max_length("é€\n"), (1, 5));
    for text in ["", "x", "\n", "\n\n", "a\r\n\r\nb", "tail\r", "ü\nxyz\r\n"] {
        let expected = (text.lines().count(), text.lines().map(|l| l.len()).max().unwrap_or(0));
        assert_eq!(get_lines_count_with_max_length(text), expected);
    }
}

#[test]
fn select_all_adds_once_and_deselect_all_removes() {
    let a = DependencyId::new(1);
    let b = DependencyId::new(2);
    let mut visible = vec![a];
    handle_action(&mut visible, b, Some(Action::SelectAll));
    assert_eq!(visible, vec![a, b]);
    handle_action(&mut visible, b, Some(Action::SelectAll));
    assert_eq!(visible, vec![a, b]);
    handle_action(&mut visible, a, None);
    assert_eq!(visible, vec![a, b]);
    handle_action(&mut visible, a, Some(Action::DeselectAll));
    assert_eq!(visible, vec![b]);
    handle_action(&mut visible, a, Some(Action::DeselectAll));
    assert_eq!(visible, vec![b]);
}

#[test]
fn groups_are_filtered_by_the_searcher_in_order() {
    let groups = vec![
        ("Newtonsoft.Json".to_string(), vec![DependencyId::new(0)]),
        ("Serilog".to_string(), vec![DependencyId::new(1), DependencyId::new(2)]),
        ("System.Text.Json".to_string(), vec![DependencyId::new(3)]),
    ];
    let s = Searcher::new(&SearchOptions::new(), "json");
    let shown: Vec<&str> = compute_dependencies_to_show_from_groups(&groups, &s)
        .iter()
        .map(|g| g.0.as_str())
        .collect();
    assert_eq!(shown, vec!["Newtonsoft.Json", "System.Text.Json"]);
    let all = Searcher::new(&SearchOptions::new(), "");
    assert_eq!(compute_dependencies_to_show_from_groups(&groups, &all).len(), 3);
    let none = Searcher::new(&SearchOptions::new(), "zzz");
    assert!(compute_dependencies_to_show_from_groups(&groups, &none).is_empty());
}

#[test]
fn dependency_panel_asks_for_what_is_missing() {
    let f = GraphFramework::new("net8.0".to_string());
    let d = DependencyId::new(0);
    assert_eq!(dependency_panel_prompt(Some(d), Some(&f)), None);
    assert_eq!(dependency_panel_prompt(Some(d), None), Some("Select framework"));
    assert_eq!(dependency_panel_prompt(None, Some(&f)), Some("Select dependency"));
    assert_eq!(dependency_panel_prompt(None, None), Some("Select framework and dependency"));
}

#[test]
fn packages_are_grouped_by_name_in_name_order() {
    let mut g = DependencyGraph::new();
    let s4 = g.add_package("Serilog".to_string(), Some("4.0.0".to_string())).unwrap();
    let app = g.add_project("app.csproj".to_string(), None).unwrap();
    let s3 = g.add_package("Serilog".to_string(), Some("3.0.1".to_string())).unwrap();
    let low = g.add_package("aaa".to_string(), None).unwrap();
    let json = g.add_package("Newtonsoft.Json".to_string(), None).unwrap();
    let groups = group_packages_by_name(&g);
    let names: Vec<&str> = groups.iter().map(|x| x.0.as_str()).collect();
    assert_eq!(names, vec!["Newtonsoft.Json", "Serilog", "aaa", "app.csproj"]);
    assert_eq!(groups[0].1, vec![json]);
    assert_eq!(groups[1].1, vec![s4, s3]);
    assert_eq!(groups[2].1, vec![low]);
    assert_eq!(groups[3].1, vec![app]);
    assert!(group_packages_by_name(&DependencyGraph::new()).is_empty());
}

#[test]
fn file_dialog_decides_what_a_picked_file_is_for() {
    let mut h = FileDialogHandler::new();
    assert_eq!(h.mode(), FileMode::Idle);
    assert_eq!(h.handle(true, true), FileAction::Nothing);
    h.open_for_merge();
    assert_eq!(h.handle(false, true), FileAction::Nothing);
    assert_eq!(h.handle(true, true), FileAction::ParseAndMerge);
    assert_eq!(h.handle(true, false), FileAction::ParseAndReplace);
    h.finish(true, false);
    assert_eq!(h.mode(), FileMode::Merge);
    h.finish(false, true);
    assert_eq!(h.mode(), FileMode::Merge);
    h.finish(true, true);
    assert_eq!(h.mode(), FileMode::Idle);
    h.open_for_save();
    assert_eq!(h.handle(true, false), FileAction::Nothing);
    assert_eq!(h.handle(true, true), FileAction::SaveSession);
    h.open_for_load();
    assert_eq!(h.handle(true, false), FileAction::LoadSession);
    h.open_for_replace();
    assert_eq!(h.handle(true, true), FileAction::ParseAndReplace);
}

#[test]
fn only_edges_between_visible_nodes_under_the_framework_are_drawn() {
    let mut g = DependencyGraph::new();
    let app = g.add_project("app.csproj".to_string(), None).unwrap();
    let lib = g.add_project("lib.csproj".to_string(), None).unwrap();
    let log = g.add_package("Serilog".to_string(), Some("3.0.1".to_string())).unwrap();
    let net8 = GraphFramework::new("net8.0".to_string());
    let net7 = GraphFramework::new("net7.0".to_string());
    g.add_relation(app, lib, net8.clone()).unwrap();
    g.add_relation(app, log, net8.clone()).unwrap();
    g.add_relation(lib, log, net8.clone()).unwrap();
    g.add_relation(app, log, net7.clone()).unwrap();

    let all = vec![app, lib, log];
    assert_eq!(
        edges_to_draw(&g, &all, &net8, Some(lib)),
        vec![(app, log, false), (app, lib, true), (lib, log, true)]
    );
    assert_eq!(edges_to_draw(&g, &all, &net7, None), vec![(app, log, false)]);
    let some = vec![lib, app];
    assert_eq!(edges_to_draw(&g, &some, &net8, None), vec![(app, lib, false)]);
    assert!(edges_to_draw(&g, &Vec::new(), &net8, None).is_empty());
}

#[test]
fn selection_buttons_act_on_every_listed_group() {
    let a = DependencyId::new(1);
    let b = DependencyId::new(2);
    let c = DependencyId::new(3);
    let d = DependencyId::new(4);
    let g1 = ("A".to_string(), vec![a, b]);
    let g2 = ("C".to_string(), vec![c]);
    let groups = vec![&g1, &g2];
    let mut visible = vec![d, b];
    apply_action_to_groups(&mut visible, &groups, Some(Action::SelectAll));
    assert_eq!(visible, vec![d, b, a, c]);
    apply_action_to_groups(&mut visible, &groups, None);
    assert_eq!(visible, vec![d, b, a, c]);
    apply_action_to_groups(&mut visible, &groups, Some(Action::DeselectAll));
    assert_eq!(visible, vec![d]);
}

#[test]
fn packages_list_sorts_versions_and_hides_all_on_invalid_pattern() {
    let mut g = DependencyGraph::new();
    let s4 = g.add_package("Serilog".to_string(), Some("4.0.0".to_string())).unwrap();
    let s3 = g.add_package("Serilog".to_string(), Some("3.0.1".to_string())).unwrap();
    let sn = g.add_package("Serilog".to_string(), None).unwrap();
    let json = g.add_package("Newtonsoft.Json".to_string(), Some("13.0.1".to_string())).unwrap();
    assert_eq!(sort_by_version(&g, &vec![s4, s3, sn]), vec![sn, s3, s4]);
    assert_eq!(sort_by_version(&g, &vec![json, s4, json]), vec![json, json, s4]);

    let all = packages_to_show(&g, &Searcher::new(&SearchOptions::new(), ""));
    assert_eq!(all.len(), 2);
    assert_eq!(all[0], ("Newtonsoft.Json".to_string(), vec![json]));
    assert_eq!(all[1], ("Serilog".to_string(), vec![sn, s3, s4]));

    let some = packages_to_show(&g, &Searcher::new(&SearchOptions::new(), "seri"));
    assert_eq!(some, vec![("Serilog".to_string(), vec![sn, s3, s4])]);

    let mut options = SearchOptions::new();
    options.kind = SearchKind::Regex;
    let invalid = Searcher::new(&options, "(");
    assert!(!invalid.is_valid());
    assert!(invalid.is_match("Serilog"));
    assert!(!invalid.is_shown("Serilog"));
    assert!(packages_to_show(&g, &invalid).is_empty());
}

#[test]
fn project_links_are_recorded_both_ways() {
    let mut tree = ProjectTree::new();
    let app = tree.insert("app".to_string());
    let lib = tree.insert("lib".to_string());
    let net8 = Framework::new("net8.0".to_string());
    tree.link_projects(&app, &lib, &net8);
    tree.link_projects(&app, &lib, &net8);
    let a = tree.get(&app).unwrap();
    assert_eq!(a.frameworks.len(), 1);
    assert_eq!(a.frameworks[0].0.id, "net8.0");
    assert_eq!(a.frameworks[0].1.dependencies.len(), 1);
    assert!(a.reverse_dependencies.is_empty());
    let l = tree.get(&lib).unwrap();
    assert!(l.frameworks.is_empty());
    assert_eq!(l.reverse_dependencies.len(), 1);
    assert_eq!(l.reverse_dependencies[0].0.id, "net8.0");
    assert!(l.reverse_dependencies[0].1.same(&app));
    let fws: Vec<&str> = tree.frameworks_iter().iter().map(|f| f.id.as_str()).collect();
    assert_eq!(fws, vec!["net8.0"]);
}

#[test]
fn inserting_an_existing_project_keeps_it() {
    let mut tree = ProjectTree::new();
    let app = tree.insert("app".to_string());
    let lib = tree.insert("lib".to_string());
    tree.link_projects(&app, &lib, &Framework::new("net8.0".to_string()));
    let again = tree.insert("app".to_string());
    assert!(again.same(&app));
    let a = tree.get(&app).unwrap();
    assert_eq!(a.name, "app");
    assert_eq!(a.frameworks.len(), 1);
    assert_eq!(tree.get(&lib).unwrap().name, "lib");
    assert_eq!(tree.iter().len(), 2);
}
