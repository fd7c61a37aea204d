use std::io::Write;

use mod_bisect::descriptor::{entry_is_required, read_declaration, read_descriptor, read_required};
use mod_bisect::error::{BisectError, ScanError};
use mod_bisect::mod_parser::{read_entry_path, read_manifest, read_optional_text};
use mod_bisect::text::{lowercase_is, to_ascii_lower};

fn table(entries: Vec<(&str, toml::Value)>) -> toml::Value {
    let mut table = toml::Table::new();
    for (key, value) in entries {
        table.insert(key.to_string(), value);
    }
    toml::Value::Table(table)
}

fn text(value: &str) -> toml::Value {
    toml::Value::String(value.to_string())
}

fn object(entries: Vec<(&str, serde_json::Value)>) -> serde_json::Value {
    let mut map = serde_json::Map::new();
    for (key, value) in entries {
        map.insert(key.to_string(), value);
    }
    serde_json::Value::Object(map)
}

#[test]
fn entry_is_required_by_type_or_by_flag() {
    assert!(entry_is_required(&table(vec![("type", text("required"))])));
    assert!(entry_is_required(&table(vec![("type", text("ReQuIrEd"))])));
    assert!(entry_is_required(&table(vec![("required", toml::Value::Boolean(true))])));
    assert!(entry_is_required(&table(vec![("mandatory", toml::Value::Boolean(true))])));
    assert!(entry_is_required(&table(vec![
        ("type", text("optional")),
        ("mandatory", toml::Value::Boolean(true)),
    ])));
}

#[test]
fn entry_without_a_set_marker_is_not_required() {
    assert!(!entry_is_required(&table(vec![])));
    assert!(!entry_is_required(&table(vec![("modId", text("required"))])));
    assert!(!entry_is_required(&table(vec![("type", text("optional"))])));
    assert!(!entry_is_required(&table(vec![("type", text("required "))])));
    assert!(!entry_is_required(&table(vec![("type", toml::Value::Boolean(true))])));
    assert!(!entry_is_required(&table(vec![("required", toml::Value::Boolean(false))])));
    assert!(!entry_is_required(&table(vec![("required", text("true"))])));
    assert!(!entry_is_required(&table(vec![("required", toml::Value::Integer(1))])));
    assert!(!entry_is_required(&text("required")));
    assert!(!entry_is_required(&toml::Value::Array(vec![text("required")])));
}

#[test]
fn required_entries_contribute_their_ids_in_order() {
    let entries = vec![
        table(vec![("modId", text("one")), ("type", text("required"))]),
        table(vec![("modId", text("skipped"))]),
        table(vec![("type", text("required"))]),
        table(vec![("modId", toml::Value::Float(1.5)), ("type", text("required"))]),
        text("required"),
        table(vec![("modId", text("two")), ("mandatory", toml::Value::Boolean(true))]),
        table(vec![("modId", text("one")), ("required", toml::Value::Boolean(true))]),
    ];
    assert_eq!(read_required(&entries), vec!["one", "two", "one"]);
    assert!(read_required(&Vec::new()).is_empty());
}

#[test]
fn declaration_takes_its_dependencies_from_the_table() {
    let item = table(vec![("modId", text("a")), ("displayName", text("A"))]);
    let dependencies = table(vec![
        (
            "a",
            toml::Value::Array(vec![table(vec![
                ("modId", text("b")),
                ("type", text("required")),
            ])]),
        ),
        (
            "b",
            toml::Value::Array(vec![table(vec![
                ("modId", text("c")),
                ("type", text("required")),
            ])]),
        ),
    ]);
    let with = read_declaration(&item, Some(&dependencies)).unwrap();
    assert_eq!(with.id, "a");
    assert_eq!(with.name, "A");
    assert_eq!(with.dependencies, vec!["b"]);
    let without = read_declaration(&item, None).unwrap();
    assert_eq!(without.id, "a");
    assert!(without.dependencies.is_empty());
    let no_table = read_declaration(&item, Some(&text("a"))).unwrap();
    assert!(no_table.dependencies.is_empty());
}

#[test]
fn declaration_of_something_that_is_no_table_has_no_id() {
    assert_eq!(read_declaration(&text("a"), None).unwrap_err(), ScanError::MissingModId);
    assert_eq!(
        read_declaration(&toml::Value::Array(Vec::new()), None).unwrap_err(),
        ScanError::MissingModId
    );
}

#[test]
fn descriptor_is_read_from_a_parsed_document() {
    let root = table(vec![
        (
            "mods",
            toml::Value::Array(vec![
                table(vec![("modId", text("a")), ("displayName", text("A"))]),
                table(vec![("modId", text("b")), ("displayName", text("B"))]),
            ]),
        ),
        (
            "dependencies",
            table(vec![(
                "b",
                toml::Value::Array(vec![table(vec![
                    ("modId", text("a")),
                    ("required", toml::Value::Boolean(true)),
                ])]),
            )]),
        ),
    ]);
    let list = read_descriptor(&root).unwrap();
    assert_eq!(list.len(), 2);
    assert_eq!(list[0].id, "a");
    assert!(list[0].dependencies.is_empty());
    assert_eq!(list[1].id, "b");
    assert_eq!(list[1].dependencies, vec!["a"]);
}

#[test]
fn document_that_is_no_table_has_no_mods() {
    assert_eq!(read_descriptor(&text("mods")).unwrap_err(), ScanError::MissingMods);
    assert_eq!(
        read_descriptor(&table(vec![("mods", table(vec![]))])).unwrap_err(),
        ScanError::ModsNotArray
    );
    let root = table(vec![
        ("mods", toml::Value::Array(Vec::new())),
        ("dependencies", toml::Value::Array(Vec::new())),
    ]);
    assert_eq!(read_descriptor(&root).unwrap_err(), ScanError::DependenciesNotTable);
}

#[test]
fn manifest_hands_out_its_jars() {
    let first = object(vec![("path", serde_json::Value::String("a.jar".to_string()))]);
    let second = object(vec![("path", serde_json::Value::Null)]);
    let root = object(vec![("jars", serde_json::Value::Array(vec![first, second]))]);
    let items = read_manifest(&root).unwrap();
    assert_eq!(items.len(), 2);
    assert_eq!(read_entry_path(&items[0]), Ok("a.jar"));
    assert_eq!(read_entry_path(&items[1]), Err(ScanError::PathNotString));
    assert_eq!(read_entry_path(&object(vec![])), Err(ScanError::MissingPath));
    assert_eq!(read_entry_path(&serde_json::Value::Null), Err(ScanError::MissingPath));
}

#[test]
fn manifest_of_another_shape_is_refused() {
    assert_eq!(read_manifest(&serde_json::Value::Null).unwrap_err(), ScanError::MissingJars);
    assert_eq!(
        read_manifest(&object(vec![("jars", serde_json::Value::Bool(true))])).unwrap_err(),
        ScanError::JarsNotArray
    );
}

#[test]
fn text_of_an_entry_is_read_if_it_is_there() {
    let mut writer = zip::ZipWriter::new(std::io::Cursor::new(Vec::new()));
    writer.start_file("hello.txt", zip::write::SimpleFileOptions::default()).unwrap();
    writer.write_all("gr\u{fc}\u{df} dich".as_bytes()).unwrap();
    writer.start_file("empty.txt", zip::write::SimpleFileOptions::default()).unwrap();
    writer.start_file("binary", zip::write::SimpleFileOptions::default()).unwrap();
    writer.write_all(&[0xc3, 0x28]).unwrap();
    let bytes = writer.finish().unwrap().into_inner();
    assert_eq!(
        read_optional_text(&bytes, "hello.txt"),
        Ok(Some("gr\u{fc}\u{df} dich".to_string()))
    );
    assert_eq!(read_optional_text(&bytes, "empty.txt"), Ok(Some(String::new())));
    assert_eq!(read_optional_text(&bytes, "other.txt"), Ok(None));
    assert_eq!(read_optional_text(&bytes, "binary"), Err(ScanError::InvalidText));
    assert_eq!(read_optional_text(&vec![1, 2, 3], "hello.txt"), Err(ScanError::NotAnArchive));
}

#[test]
fn only_ascii_capitals_are_lowered() {
    assert_eq!(to_ascii_lower('A'), 'a');
    assert_eq!(to_ascii_lower('Z'), 'z');
    assert_eq!(to_ascii_lower('q'), 'q');
    assert_eq!(to_ascii_lower('@'), '@');
    assert_eq!(to_ascii_lower('['), '[');
    assert_eq!(to_ascii_lower('\u{c4}'), '\u{c4}');
    for c in ['A', 'M', 'Z', 'a', '0', ' ', '\u{c4}', '\u{130}'] {
        assert_eq!(to_ascii_lower(c), c.to_ascii_lowercase());
    }
    assert!(lowercase_is("REQUIRED", "required"));
    assert!(lowercase_is("required", "required"));
    assert!(lowercase_is("", ""));
    assert!(!lowercase_is("required", "REQUIRED"));
    assert!(!lowercase_is("require", "required"));
    assert!(!lowercase_is("\u{c4}", "\u{e4}"));
}

#[test]
fn failures_name_the_id_they_are_about() {
    assert_eq!(
        BisectError::MissingDependency("lib".to_string()).message(),
        "Missing dependency: lib"
    );
    assert_eq!(
        BisectError::MissingConsistentMod("pin".to_string()).message(),
        "Missing consistent mod: pin"
    );
}
