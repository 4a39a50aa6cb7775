use hdl_filelist::index::build_module_map;
use hdl_filelist::resolve_filelist;
use hdl_filelist::resolve_project;
use hdl_filelist::SourceFile;

fn file(path: &str, content: &str) -> SourceFile {
    SourceFile { path: path.as_bytes().to_vec(), content: content.as_bytes().to_vec() }
}

fn paths(v: &[&str]) -> Vec<Vec<u8>> {
    v.iter().map(|s| s.as_bytes().to_vec()).collect()
}

#[test]
fn example_leaf_and_top() {
    let files = vec![
        file("leaf.v", "module leaf;\nendmodule\n"),
        file("top.v", "module top;\n  leaf inst0();\nendmodule\n"),
    ];
    let (list, missing) = resolve_project(files, &b"top".to_vec());
    assert_eq!(list, paths(&["leaf.v", "top.v"]));
    assert!(missing.is_empty());
}

#[test]
fn cycle_terminates() {
    let files = vec![
        file("a.v", "module a;\n  b inst_b();\nendmodule\n"),
        file("b.v", "module b;\n  a inst_a();\nendmodule\n"),
    ];
    let (list, missing) = resolve_project(files, &b"a".to_vec());
    assert_eq!(list, paths(&["b.v", "a.v"]));
    assert!(missing.is_empty());
}

#[test]
fn blackbox_is_tolerated_and_warned_once() {
    let files = vec![file(
        "top.v",
        "module top;\n  x_unknown u0();\n  x_unknown u1();\nendmodule\n",
    )];
    let (list, missing) = resolve_project(files, &b"top".to_vec());
    assert_eq!(list, paths(&["top.v"]));
    assert_eq!(missing, paths(&["x_unknown"]));
}

#[test]
fn unknown_top_module_is_empty_with_warning() {
    let files = vec![file("leaf.v", "module leaf;\nendmodule\n")];
    let (list, missing) = resolve_project(files, &b"nosuch".to_vec());
    assert!(list.is_empty());
    assert_eq!(missing, paths(&["nosuch"]));
}

#[test]
fn unrecognized_extension_is_ignored() {
    let files = vec![
        file("decoy.txt", "module hidden;\nendmodule\n"),
        file("top.v", "module top;\n  hidden u0();\nendmodule\n"),
    ];
    let (list, missing) = resolve_project(files, &b"top".to_vec());
    assert_eq!(list, paths(&["top.v"]));
    assert_eq!(missing, paths(&["hidden"]));

    let files2 = vec![file("decoy.txt", "module hidden;\nendmodule\n")];
    let (list2, missing2) = resolve_project(files2, &b"hidden".to_vec());
    assert!(list2.is_empty());
    assert_eq!(missing2, paths(&["hidden"]));
}

#[test]
fn sv_extension_is_recognized() {
    let files = vec![
        file("leaf.sv", "module leaf;\nendmodule\n"),
        file("top.sv", "module top;\n  leaf u0();\nendmodule\n"),
    ];
    let (list, missing) = resolve_project(files, &b"top".to_vec());
    assert_eq!(list, paths(&["leaf.sv", "top.sv"]));
    assert!(missing.is_empty());
}

#[test]
fn file_with_two_modules_listed_once() {
    let files = vec![
        file("two.v", "module m1;\nendmodule\nmodule m2;\nendmodule\n"),
        file("top.v", "module top;\n  m1 u1();\n  m2 u2();\nendmodule\n"),
    ];
    let (list, missing) = resolve_project(files, &b"top".to_vec());
    assert_eq!(list, paths(&["two.v", "top.v"]));
    assert!(missing.is_empty());
}

#[test]
fn shared_dependency_listed_once() {
    let files = vec![
        file("leaf.v", "module leaf;\nendmodule\n"),
        file("a.v", "module a;\n  leaf u0();\nendmodule\n"),
        file("b.v", "module b;\n  leaf u0();\nendmodule\n"),
        file("top.v", "module top;\n  a ua();\n  b ub();\nendmodule\n"),
    ];
    let (list, missing) = resolve_project(files, &b"top".to_vec());
    assert_eq!(list, paths(&["leaf.v", "a.v", "b.v", "top.v"]));
    assert!(missing.is_empty());
}

#[test]
fn resolving_twice_gives_the_same_result() {
    let make = || {
        vec![
            file("leaf.v", "module leaf;\nendmodule\n"),
            file("top.v", "module top;\n  leaf u0();\n  ghostly u1();\nendmodule\n"),
        ]
    };
    let first = resolve_project(make(), &b"top".to_vec());
    let second = resolve_project(make(), &b"top".to_vec());
    assert_eq!(first, second);
}

#[test]
fn first_declaring_file_wins() {
    let files = vec![
        file("one.v", "module dup;\nendmodule\n"),
        file("two.v", "module dup;\nendmodule\n"),
    ];
    let (list, missing) = resolve_project(files, &b"dup".to_vec());
    assert_eq!(list, paths(&["one.v"]));
    assert!(missing.is_empty());
}

#[test]
fn warnings_come_in_line_order() {
    let files = vec![file(
        "top.v",
        "module top;\n  beta u1();\n  alpha u2();\n  beta u3();\nendmodule\n",
    )];
    let (list, missing) = resolve_project(files, &b"top".to_vec());
    assert_eq!(list, paths(&["top.v"]));
    assert_eq!(missing, paths(&["beta", "alpha"]));
}

#[test]
fn parameterized_instantiation_is_followed() {
    let files = vec![
        file("adder.v", "module adder;\nendmodule\n"),
        file("top.v", "module top;\n  adder #(.W(8)) u0 (\n    .a(a)\n  );\nendmodule\n"),
    ];
    let (list, missing) = resolve_project(files, &b"top".to_vec());
    assert_eq!(list, paths(&["adder.v", "top.v"]));
    assert!(missing.is_empty());
}

#[test]
fn index_then_resolve_matches_combined_call() {
    let files = vec![
        file("leaf.v", "module leaf;\nendmodule\n"),
        file("top.v", "module top;\n  leaf u0();\nendmodule\n"),
    ];
    let index = build_module_map(files);
    let (list, missing) = resolve_filelist(&b"top".to_vec(), &index);
    assert_eq!(list, paths(&["leaf.v", "top.v"]));
    assert!(missing.is_empty());
}

#[test]
fn empty_project_resolves_to_nothing() {
    let files: Vec<SourceFile> = Vec::new();
    let (list, missing) = resolve_project(files, &b"top".to_vec());
    assert!(list.is_empty());
    assert_eq!(missing, paths(&["top"]));
}

#[test]
fn deep_chain_is_ordered_bottom_up() {
    let files = vec![
        file("c3.v", "module c3;\nendmodule\n"),
        file("c2.v", "module c2;\n  c3 u();\nendmodule\n"),
        file("c1.v", "module c1;\n  c2 u();\nendmodule\n"),
        file("top.v", "module top;\n  c1 u();\nendmodule\n"),
    ];
    let (list, missing) = resolve_project(files, &b"top".to_vec());
    assert_eq!(list, paths(&["c3.v", "c2.v", "c1.v", "top.v"]));
    assert!(missing.is_empty());
}
