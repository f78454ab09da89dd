use sefirot::profile::{in_section, subsection_name};

#[test]
fn timings_belong_to_sections_by_prefix() {
    assert!(in_section("physics step", "physics"));
    assert!(in_section("physics", "physics"));
    assert!(!in_section("phys", "physics"));
    assert!(!in_section("render", "physics"));
    assert!(in_section("anything", ""));
}

#[test]
fn subsection_names_drop_the_prefix_and_white_space() {
    assert_eq!(subsection_name("physics  step", "physics"), Some(String::from("step")));
    assert_eq!(subsection_name("physics\u{3000}grid", "physics"), Some(String::from("grid")));
    assert_eq!(subsection_name("physics", "physics"), None);
    assert_eq!(subsection_name("physics   ", "physics"), None);
    assert_eq!(subsection_name("render", "physics"), None);
    assert_eq!(subsection_name("physicsx", "physics"), Some(String::from("x")));
}
