use containerless::paths::{output_inside_source, output_parent};

#[test]
fn uses_current_directory_for_bare_output_names() {
    assert_eq!(output_parent("image.tar"), ".");
    assert_eq!(output_parent("out/image.tar"), "out");
}

#[test]
fn outputs_inside_sources_are_found() {
    assert!(output_inside_source("/work/app", "/work/app", false));
    assert!(!output_inside_source("/work/app/out.tar", "/work/app", false));
    assert!(output_inside_source("/work/app/out.tar", "/work/app", true));
    assert!(output_inside_source("/work/app/deep/out", "/work/app/", true));
    assert!(!output_inside_source("/work/application", "/work/app", true));
    assert!(!output_inside_source("/work", "/work/app", true));
    assert!(output_inside_source("/out", "/", true));
    assert!(!output_inside_source("work/app", "/work/app", true));
}
