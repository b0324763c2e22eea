use rkui::utils::{
    link_file_descriptors, normalize_full_name, unique_parent_dirs, unresolved_error, LinkPlan,
    ProtoFile,
};
use std::path::PathBuf;

#[test]
fn full_name_loses_one_leading_dot() {
    assert_eq!(normalize_full_name(".example.Person".to_string()), "example.Person");
    assert_eq!(normalize_full_name("example.Person".to_string()), "example.Person");
    assert_eq!(normalize_full_name("..x".to_string()), ".x");
    assert_eq!(normalize_full_name(".".to_string()), "");
    assert_eq!(normalize_full_name(String::new()), "");
    assert_eq!(normalize_full_name(".\u{e9}".to_string()), "\u{e9}");
}

#[test]
fn parent_directories_are_listed_once() {
    let files = vec![
        "/srv/proto/a.proto".to_string(),
        "/srv/proto/b.proto".to_string(),
        "/srv/other/c.proto".to_string(),
        "/srv/proto//d.proto".to_string(),
        "plain.proto".to_string(),
        "/".to_string(),
        String::new(),
    ];
    let dirs = unique_parent_dirs(&files);
    assert_eq!(
        dirs,
        vec![PathBuf::from("/srv/proto"), PathBuf::from("/srv/other"), PathBuf::from("")]
    );
    assert!(unique_parent_dirs(&[]).is_empty());
}

fn file(name: &str, deps: &[&str]) -> ProtoFile {
    ProtoFile { name: name.to_string(), dependencies: deps.iter().map(|d| d.to_string()).collect() }
}

fn order(plan: &LinkPlan) -> Vec<(usize, Vec<usize>)> {
    plan.steps.iter().map(|s| (s.file, s.deps.clone())).collect()
}

#[test]
fn files_are_built_after_what_they_import() {
    let files = vec![
        file("person.proto", &["address.proto", "common/ids.proto"]),
        file("address.proto", &["common/ids.proto"]),
        file("common/ids.proto", &[]),
    ];
    let plan = link_file_descriptors(&files);
    assert_eq!(order(&plan), vec![(2, vec![]), (1, vec![0]), (0, vec![1, 0])]);
    assert!(plan.unresolved.is_empty());
    assert_eq!(unresolved_error(&files, &plan), None);
}

#[test]
fn files_ready_in_one_pass_are_built_in_that_pass() {
    let files = vec![file("a.proto", &[]), file("b.proto", &["a.proto"]), file("c.proto", &["b.proto"])];
    let plan = link_file_descriptors(&files);
    assert_eq!(order(&plan), vec![(0, vec![]), (1, vec![0]), (2, vec![1])]);
    assert_eq!(order(&link_file_descriptors(&vec![])), vec![]);
}

#[test]
fn import_is_found_by_last_path_component_when_it_is_unique() {
    let files = vec![
        file("/abs/dir/base.proto", &[]),
        file("user.proto", &["proto/base.proto"]),
    ];
    let plan = link_file_descriptors(&files);
    assert_eq!(order(&plan), vec![(0, vec![]), (1, vec![0])]);

    let twice = vec![
        file("x/base.proto", &[]),
        file("y/base.proto", &[]),
        file("user.proto", &["base.proto"]),
        file("exact.proto", &["y/base.proto"]),
    ];
    let plan = link_file_descriptors(&twice);
    assert_eq!(order(&plan), vec![(0, vec![]), (1, vec![]), (3, vec![1])]);
    assert_eq!(plan.unresolved, vec![2]);
    assert_eq!(
        unresolved_error(&twice, &plan),
        Some("Failed to resolve dependencies for proto files: [\"user.proto\"]".to_string())
    );
}

#[test]
fn files_that_import_each_other_are_left_over() {
    let files = vec![
        file("a.proto", &["b.proto"]),
        file("ok.proto", &[]),
        file("b.proto", &["a.proto"]),
        file("lost.proto", &["nowhere.proto", "ok.proto"]),
        file("self.proto", &["self.proto"]),
    ];
    let plan = link_file_descriptors(&files);
    assert_eq!(order(&plan), vec![(1, vec![])]);
    assert_eq!(plan.unresolved, vec![0, 2, 3, 4]);
    assert_eq!(
        unresolved_error(&files, &plan),
        Some(
            "Failed to resolve dependencies for proto files: [\"a.proto\", \"b.proto\", \"lost.proto\", \"self.proto\"]"
                .to_string()
        )
    );
}

#[test]
fn file_of_a_repeated_name_is_the_last_one_built() {
    let files = vec![file("dup.proto", &[]), file("dup.proto", &[]), file("user.proto", &["dup.proto"])];
    let plan = link_file_descriptors(&files);
    assert_eq!(order(&plan), vec![(0, vec![]), (1, vec![]), (2, vec![1])]);
}
