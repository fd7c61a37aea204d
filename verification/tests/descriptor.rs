use mod_bisect::descriptor::parse_neoforge_meta;
use mod_bisect::error::ScanError;

fn ids_of(text: &str) -> Vec<String> {
    parse_neoforge_meta(text).unwrap().into_iter().map(|m| m.id).collect()
}

fn dependencies_of(text: &str) -> Vec<Vec<String>> {
    parse_neoforge_meta(text).unwrap().into_iter().map(|m| m.dependencies).collect()
}

#[test]
fn keeps_required_dependencies_only() {
    let text = r#"
[[mods]]
modId = "a"
displayName = "A"

[[dependencies.a]]
modId = "x"
type = "required"

[[dependencies.a]]
modId = "y"
required = true

[[dependencies.a]]
modId = "z"
"#;
    let list = parse_neoforge_meta(text).unwrap();
    assert_eq!(list.len(), 1);
    assert_eq!(list[0].id, "a");
    assert_eq!(list[0].name, "A");
    assert_eq!(list[0].dependencies, vec!["x".to_string(), "y".to_string()]);
}

#[test]
fn reads_every_entry_of_mods_in_order() {
    let text = r#"
[[mods]]
modId = "second"
displayName = "Listed first"

[[mods]]
modId = "first"
displayName = "Listed second"
"#;
    let list = parse_neoforge_meta(text).unwrap();
    assert_eq!(list.len(), 2);
    assert_eq!(list[0].id, "second");
    assert_eq!(list[0].name, "Listed first");
    assert_eq!(list[1].id, "first");
    assert_eq!(list[1].name, "Listed second");
    assert!(list[0].dependencies.is_empty());
    assert!(list[1].dependencies.is_empty());
}

#[test]
fn required_type_is_read_in_any_case() {
    let text = r#"
[[mods]]
modId = "a"
displayName = "A"

[[dependencies.a]]
modId = "upper"
type = "REQUIRED"

[[dependencies.a]]
modId = "mixed"
type = "Required"

[[dependencies.a]]
modId = "optional"
type = "optional"

[[dependencies.a]]
modId = "longer"
type = "required!"
"#;
    assert_eq!(dependencies_of(text), vec![vec!["upper".to_string(), "mixed".to_string()]]);
}

#[test]
fn mandatory_flag_marks_a_dependency_as_required() {
    let text = r#"
[[mods]]
modId = "a"
displayName = "A"

[[dependencies.a]]
modId = "old"
mandatory = true

[[dependencies.a]]
modId = "off"
mandatory = false

[[dependencies.a]]
modId = "no_flag"
required = "yes"

[[dependencies.a]]
modId = "unset"
required = false
"#;
    assert_eq!(dependencies_of(text), vec![vec!["old".to_string()]]);
}

#[test]
fn duplicate_dependencies_are_kept() {
    let text = r#"
[[mods]]
modId = "a"
displayName = "A"

[[dependencies.a]]
modId = "x"
type = "required"

[[dependencies.a]]
modId = "x"
mandatory = true
"#;
    assert_eq!(dependencies_of(text), vec![vec!["x".to_string(), "x".to_string()]]);
}

#[test]
fn required_dependency_without_string_id_is_passed_over() {
    let text = r#"
[[mods]]
modId = "a"
displayName = "A"

[[dependencies.a]]
type = "required"

[[dependencies.a]]
modId = 7
type = "required"

[[dependencies.a]]
modId = "x"
type = "required"
"#;
    assert_eq!(dependencies_of(text), vec![vec!["x".to_string()]]);
}

#[test]
fn dependencies_are_looked_up_by_package_id() {
    let text = r#"
[[mods]]
modId = "a"
displayName = "A"

[[mods]]
modId = "b"
displayName = "B"

[[dependencies.b]]
modId = "a"
type = "required"

[[dependencies.c]]
modId = "unrelated"
type = "required"
"#;
    assert_eq!(ids_of(text), vec!["a".to_string(), "b".to_string()]);
    assert_eq!(dependencies_of(text), vec![vec![], vec!["a".to_string()]]);
}

#[test]
fn absent_dependencies_table_means_no_dependencies() {
    let text = "[[mods]]\nmodId = \"a\"\ndisplayName = \"A\"\n";
    assert_eq!(dependencies_of(text), vec![Vec::<String>::new()]);
}

#[test]
fn dependencies_of_a_package_that_are_no_list_count_as_none() {
    let text = r#"
[[mods]]
modId = "a"
displayName = "A"

[dependencies]
a = "x"
"#;
    assert_eq!(dependencies_of(text), vec![Vec::<String>::new()]);
}

#[test]
fn empty_list_of_mods_declares_nothing() {
    assert!(parse_neoforge_meta("mods = []\n").unwrap().is_empty());
}

#[test]
fn rejects_text_that_is_no_toml() {
    assert_eq!(parse_neoforge_meta("[[mods").unwrap_err(), ScanError::MalformedDescriptor);
}

#[test]
fn rejects_descriptor_without_mods() {
    assert_eq!(parse_neoforge_meta("").unwrap_err(), ScanError::MissingMods);
    assert_eq!(parse_neoforge_meta("license = \"MIT\"\n").unwrap_err(), ScanError::MissingMods);
}

#[test]
fn rejects_mods_that_are_no_list() {
    assert_eq!(parse_neoforge_meta("mods = \"a\"\n").unwrap_err(), ScanError::ModsNotArray);
    assert_eq!(
        parse_neoforge_meta("[mods]\nmodId = \"a\"\n").unwrap_err(),
        ScanError::ModsNotArray
    );
}

#[test]
fn rejects_dependencies_that_are_no_table() {
    let text = "dependencies = 3\n[[mods]]\nmodId = \"a\"\ndisplayName = \"A\"\n";
    assert_eq!(parse_neoforge_meta(text).unwrap_err(), ScanError::DependenciesNotTable);
}

#[test]
fn mods_are_checked_before_dependencies() {
    assert_eq!(parse_neoforge_meta("dependencies = 3\n").unwrap_err(), ScanError::MissingMods);
}

#[test]
fn rejects_package_without_id() {
    let text = "[[mods]]\ndisplayName = \"A\"\n";
    assert_eq!(parse_neoforge_meta(text).unwrap_err(), ScanError::MissingModId);
}

#[test]
fn rejects_package_whose_id_is_no_string() {
    let text = "[[mods]]\nmodId = 1\ndisplayName = \"A\"\n";
    assert_eq!(parse_neoforge_meta(text).unwrap_err(), ScanError::ModIdNotString);
}

#[test]
fn rejects_package_without_display_name() {
    let text = "[[mods]]\nmodId = \"a\"\n";
    assert_eq!(parse_neoforge_meta(text).unwrap_err(), ScanError::MissingDisplayName);
}

#[test]
fn rejects_package_whose_display_name_is_no_string() {
    let text = "[[mods]]\nmodId = \"a\"\ndisplayName = true\n";
    assert_eq!(parse_neoforge_meta(text).unwrap_err(), ScanError::DisplayNameNotString);
}

#[test]
fn first_faulty_package_decides_the_failure() {
    let text = r#"
[[mods]]
modId = "a"
displayName = "A"

[[mods]]
modId = "b"

[[mods]]
displayName = "C"
"#;
    assert_eq!(parse_neoforge_meta(text).unwrap_err(), ScanError::MissingDisplayName);
}

#[test]
fn id_is_checked_before_display_name() {
    let text = "[[mods]]\nmodId = 1\n";
    assert_eq!(parse_neoforge_meta(text).unwrap_err(), ScanError::ModIdNotString);
}
