use lcs_png_diff::{add_suffix_to_file_name, suffixed_name};

#[test]
fn suffix_goes_before_the_extension() {
    assert_eq!(
        Some("tests/fixtures/backstopjs_pricing_result.png".to_string()),
        add_suffix_to_file_name("tests/fixtures/backstopjs_pricing.png", "_result")
    );
}

#[test]
fn name_without_a_directory_gets_none() {
    assert_eq!(Some("before_result.png".to_string()), add_suffix_to_file_name("before.png", "_result"));
}

#[test]
fn extension_is_kept() {
    assert_eq!(Some("shots/a_result.jpg".to_string()), add_suffix_to_file_name("shots/a.jpg", "_result"));
    assert_eq!(Some("shots/page_diff.jpeg".to_string()), add_suffix_to_file_name("shots/page.jpeg", "_diff"));
    assert_eq!(Some("page_diff.PNG".to_string()), add_suffix_to_file_name("page.PNG", "_diff"));
}

#[test]
fn name_without_an_extension_gets_png() {
    assert_eq!(Some("shots/page_diff.png".to_string()), add_suffix_to_file_name("shots/page", "_diff"));
    assert_eq!(Some(".hidden_diff.png".to_string()), add_suffix_to_file_name(".hidden", "_diff"));
}

#[test]
fn suffix_goes_before_the_last_extension_only() {
    assert_eq!(Some("a/b.tar_x.gz".to_string()), add_suffix_to_file_name("a/b.tar.gz", "_x"));
}

#[test]
fn empty_extension_is_kept_too() {
    assert_eq!(Some("a/b_x.".to_string()), add_suffix_to_file_name("a/b.", "_x"));
}

#[test]
fn path_without_a_file_name_has_no_result_name() {
    assert_eq!(None, add_suffix_to_file_name("", "_result"));
    assert_eq!(None, add_suffix_to_file_name("/", "_result"));
    assert_eq!(None, add_suffix_to_file_name("shots/..", "_result"));
}

#[test]
fn suffixed_name_joins_its_parts() {
    assert_eq!("dir/stem_s.jpg", suffixed_name("dir", "stem", "_s", Some("jpg")));
    assert_eq!("stem_s.jpg", suffixed_name("", "stem", "_s", Some("jpg")));
    assert_eq!("dir/stem_s.png", suffixed_name("dir", "stem", "_s", None));
    assert_eq!("stem_s.png", suffixed_name("", "stem", "_s", None));
    assert_eq!("a/b/.", suffixed_name("a/b", "", "", Some("")));
    assert_eq!(".png", suffixed_name("", "", "", None));
}
