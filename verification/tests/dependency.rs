use dotnet_dependency_parser::dependency::{
    accepts_new_name, dependency_edges, edges_for, renamed_to, Dependency,
};

fn sample() -> Vec<Dependency> {
    let mut deps = vec![
        Dependency::new("a".to_string()),
        Dependency::new("b".to_string()),
        Dependency::new("c".to_string()),
    ];
    deps[0].deps.push("b".to_string());
    deps[2].deps.push("b".to_string());
    deps[2].deps.push("a".to_string());
    deps
}

#[test]
fn edges_join_positions_of_named_dependencies() {
    let deps = sample();
    assert_eq!(dependency_edges(&deps), vec![(0, 1), (2, 1), (2, 0)]);
    assert_eq!(edges_for(&deps, 2), vec![(2, 1), (2, 0)]);
    assert!(edges_for(&deps, 1).is_empty());
    assert!(dependency_edges(&Vec::new()).is_empty());
}

#[test]
fn new_names_must_be_fresh_and_not_blank() {
    let names = vec!["a".to_string(), "b".to_string()];
    assert!(accepts_new_name(&names, &"c".to_string()));
    assert!(!accepts_new_name(&names, &"a".to_string()));
    assert!(!accepts_new_name(&names, &"   ".to_string()));
    assert!(!accepts_new_name(&names, &String::new()));
    assert!(accepts_new_name(&names, &" a ".to_string()));
}

#[test]
fn rename_takes_trimmed_fresh_name() {
    let names = vec!["a".to_string(), "b".to_string()];
    let a = "a".to_string();
    assert_eq!(renamed_to(&names, &a, &"  z ".to_string()), Some("z".to_string()));
    assert_eq!(renamed_to(&names, &a, &"b".to_string()), None);
    assert_eq!(renamed_to(&names, &a, &" a".to_string()), None);
    assert_eq!(renamed_to(&names, &a, &"  ".to_string()), None);
    assert_eq!(renamed_to(&names, &"q".to_string(), &"z".to_string()), None);
}
