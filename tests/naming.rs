use harald::naming::{
    is_config_file, is_entity_file, is_entity_or_archetype_file, is_special_directory,
    is_standard_doc, is_valid_kebab_case, is_valid_snake_case, is_valid_title_case,
    to_kebab_case, to_snake_case, to_title_case,
};

#[test]
fn test_case_validation() {
    assert!(is_valid_kebab_case("hello-world"));
    assert!(!is_valid_kebab_case("HelloWorld"));
    assert!(is_valid_snake_case("hello_world"));
    assert!(!is_valid_snake_case("hello-world"));
    assert!(is_valid_title_case("HelloWorld"));
    assert!(!is_valid_title_case("hello-world"));
}

#[test]
fn test_case_conversion() {
    assert_eq!(to_kebab_case("HelloWorld"), "hello-world");
    assert_eq!(to_snake_case("HelloWorld"), "hello_world");
    assert_eq!(to_title_case("hello-world"), "HelloWorld");
}

#[test]
fn conversions_collapse_separators() {
    assert_eq!(to_kebab_case("  My File__Name v2 "), "my-file-name-v2");
    assert_eq!(to_snake_case("api-Key2Value"), "api_key2_value");
    assert_eq!(to_title_case("user_profile 2x"), "UserProfile2X");
    assert!(!is_valid_kebab_case(""));
}

#[test]
fn path_classes() {
    assert!(is_special_directory("docs"));
    assert!(!is_special_directory("notes"));
    assert!(is_standard_doc("README"));
    assert!(!is_standard_doc("Readme"));
    assert!(is_entity_file("data/ai-entities/Harald.md"));
    assert!(!is_entity_file("data/entities/Harald.md"));
    assert!(is_entity_or_archetype_file("x/personality-archetypes/Sage.json"));
    assert!(is_config_file("app/config/settings.json"));
    assert!(!is_config_file("app/configs/settings.json"));
}
