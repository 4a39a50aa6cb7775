use hdl_filelist::extract_instantiated_modules;
use hdl_filelist::extract_module_decls;
use hdl_filelist::index::has_recognized_ext_x;
use hdl_filelist::scan::split_lines;

fn names(v: &[&str]) -> Vec<Vec<u8>> {
    v.iter().map(|s| s.as_bytes().to_vec()).collect()
}

#[test]
fn declarations_are_found_at_line_start() {
    let content = b"module foo;\n  module bar(\nendmodule\n".to_vec();
    assert_eq!(extract_module_decls(&content), names(&["foo", "bar"]));
}

#[test]
fn declaration_keyword_needs_no_space_before_the_name() {
    // The keyword match is textual: `modulex` reads as `module` followed by
    // the identifier `x`.
    let content = b"modulex baz\n".to_vec();
    assert_eq!(extract_module_decls(&content), names(&["x"]));
}

#[test]
fn declaration_requires_an_identifier() {
    let content = b"module 9foo;\nmodule\nModule foo;\nendmodule\n".to_vec();
    assert_eq!(extract_module_decls(&content), Vec::<Vec<u8>>::new());
}

#[test]
fn declaration_not_recognized_midline() {
    let content = b"wire x; module foo;\n".to_vec();
    assert_eq!(extract_module_decls(&content), Vec::<Vec<u8>>::new());
}

#[test]
fn instantiations_plain_and_parameterized() {
    let content =
        b"  adder u0 (\nadder#(.W(8)) u1 (\n  mux2 #( .SEL(1) ) u2(\n".to_vec();
    assert_eq!(extract_instantiated_modules(&content), names(&["adder", "adder", "mux2"]));
}

#[test]
fn instantiation_lookalikes_are_skipped() {
    let content = b"assign x = foo(\nif (x) begin\nfoo bar baz(\nalways @(posedge clk)\n"
        .to_vec();
    assert_eq!(extract_instantiated_modules(&content), Vec::<Vec<u8>>::new());
}

#[test]
fn instantiation_lookalike_is_reported() {
    // The matcher is a structural heuristic: a function-call-like line with
    // the same shape is reported as an instantiation.
    let content = b"foo bar (\n".to_vec();
    assert_eq!(extract_instantiated_modules(&content), names(&["foo"]));
}

#[test]
fn parameter_clause_with_semicolon_is_rejected() {
    let content = b"adder #(.W(8); junk) u0 (\n".to_vec();
    assert_eq!(extract_instantiated_modules(&content), Vec::<Vec<u8>>::new());
}

#[test]
fn instantiation_split_across_lines_is_missed() {
    // The matcher works line by line; a parameter clause that spans lines
    // is an accepted false negative.
    let content = b"adder #(\n  .W(8)) u0 (\n".to_vec();
    assert_eq!(extract_instantiated_modules(&content), Vec::<Vec<u8>>::new());
}

#[test]
fn instantiation_needs_space_between_type_and_instance() {
    let content = b"adderu0(\n".to_vec();
    assert_eq!(extract_instantiated_modules(&content), Vec::<Vec<u8>>::new());
}

#[test]
fn empty_content_has_no_names() {
    let content = Vec::new();
    assert_eq!(extract_module_decls(&content), Vec::<Vec<u8>>::new());
    assert_eq!(extract_instantiated_modules(&content), Vec::<Vec<u8>>::new());
}

#[test]
fn lines_split_at_newlines() {
    let content = b"a\nbc\n\nd".to_vec();
    let lines = split_lines(&content);
    assert_eq!(lines, names(&["a", "bc", "", "d"]));
    let trailing = b"a\n".to_vec();
    assert_eq!(split_lines(&trailing), names(&["a", ""]));
    let empty = Vec::new();
    assert_eq!(split_lines(&empty), names(&[""]));
}

#[test]
fn recognized_extensions_are_v_and_sv() {
    assert!(has_recognized_ext_x(&b"a.v".to_vec()));
    assert!(has_recognized_ext_x(&b"dir/a.sv".to_vec()));
    assert!(has_recognized_ext_x(&b"a.tar.v".to_vec()));
    assert!(!has_recognized_ext_x(&b"a.txt".to_vec()));
    assert!(!has_recognized_ext_x(&b"a.vh".to_vec()));
    assert!(!has_recognized_ext_x(&b"av".to_vec()));
    assert!(!has_recognized_ext_x(&b"".to_vec()));
}

#[test]
fn carriage_returns_are_whitespace() {
    let content = b"module foo;\r\n  leaf u0();\r\n".to_vec();
    assert_eq!(extract_module_decls(&content), names(&["foo"]));
    assert_eq!(extract_instantiated_modules(&content), names(&["leaf"]));
}
