use stampform::paths::output_path;

#[test]
fn derives_sibling_path() {
    assert_eq!(
        output_path("art/input.png", "negative"),
        Some(String::from("art/input.negative.png"))
    );
    assert_eq!(
        output_path("art/input.png", "positive"),
        Some(String::from("art/input.positive.png"))
    );
}

#[test]
fn bare_file_name() {
    assert_eq!(
        output_path("input.png", "negative"),
        Some(String::from("input.negative.png"))
    );
}

#[test]
fn name_without_extension() {
    assert_eq!(
        output_path("plates/input", "positive"),
        Some(String::from("plates/input.positive.png"))
    );
}

#[test]
fn hidden_file_keeps_leading_dot() {
    assert_eq!(
        output_path(".input", "negative"),
        Some(String::from(".input.negative.png"))
    );
}

#[test]
fn directory_has_no_output() {
    assert_eq!(output_path("art/", "negative"), None);
    assert_eq!(output_path("", "negative"), None);
}
