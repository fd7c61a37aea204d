use std::io::Write;

use mod_bisect::error::ScanError;
use mod_bisect::mod_parser::parse_mod;
use mod_bisect::model::ModFile;
use mod_bisect::round::Move;
use mod_bisect::search::{bisect, builtin_mods, Search};
use zip::write::SimpleFileOptions;

fn jar(entries: &[(&str, &[u8])]) -> Vec<u8> {
    let mut writer = zip::ZipWriter::new(std::io::Cursor::new(Vec::new()));
    for (name, content) in entries {
        writer.start_file(*name, SimpleFileOptions::default()).unwrap();
        writer.write_all(content).unwrap();
    }
    writer.finish().unwrap().into_inner()
}

fn descriptor(id: &str, requires: &[&str]) -> Vec<u8> {
    let mut text = format!("[[mods]]\nmodId = \"{id}\"\ndisplayName = \"{id}\"\n");
    for required in requires {
        text += &format!("[[dependencies.{id}]]\nmodId = \"{required}\"\ntype = \"required\"\n");
    }
    text.into_bytes()
}

fn mod_jar(id: &str, requires: &[&str]) -> Vec<u8> {
    jar(&[("META-INF/neoforge.mods.toml", &descriptor(id, requires))])
}

fn scanned_directory() -> (Vec<ModFile>, Vec<(String, ScanError)>) {
    let library = mod_jar("library", &["minecraft"]);
    let bundle = jar(&[
        ("META-INF/neoforge.mods.toml", &descriptor("bundle", &["neoforge"])),
        ("META-INF/jarjar/metadata.json", b"{\"jars\": [{\"path\": \"META-INF/jars/library.jar\"}]}"),
        ("META-INF/jars/library.jar", &library),
    ]);
    let files: Vec<(&str, Vec<u8>)> = vec![
        ("addon.jar", mod_jar("addon", &["bundle", "library"])),
        ("bundle.jar", bundle),
        ("notes.txt", b"not a package".to_vec()),
        ("broken.jar", b"not an archive".to_vec()),
        ("maps.jar", mod_jar("maps", &["minecraft"])),
        ("sounds.jar", mod_jar("sounds", &[])),
        ("tools.jar", mod_jar("tools", &["neoforge", "minecraft"])),
    ];
    let mut catalog = Vec::new();
    let mut refused = Vec::new();
    for (name, bytes) in files {
        match parse_mod(name, &bytes) {
            Ok(package) => catalog.push(package),
            Err(error) => refused.push((name.to_string(), error)),
        }
    }
    (catalog, refused)
}

fn run(catalog: &Vec<ModFile>, pins: &[&str], culprit: &str) -> (String, usize, Vec<String>) {
    let pins: Vec<String> = pins.iter().map(|p| p.to_string()).collect();
    let builtin = builtin_mods();
    let mut active: Vec<String> = catalog.iter().map(|m| m.file_name.clone()).collect();
    let mut search = Search::Open(catalog.iter().collect());
    let mut reply = false;
    let mut asked = 0;
    loop {
        let step = bisect(&search, reply, &pins, &builtin).unwrap();
        if let Search::Open(working) | Search::Asked(working, _) = &search {
            for relocation in &step.moves {
                match relocation {
                    Move::Park(p) => active.retain(|name| *name != working[*p].file_name),
                    Move::Restore(p) => active.push(working[*p].file_name.clone()),
                }
            }
        }
        search = step.search;
        match &search {
            Search::Found(found) => {
                active.sort();
                return (found.file_name.clone(), asked, active);
            }
            Search::Asked(_, _) => {
                reply = active.iter().any(|name| name == culprit);
                asked += 1;
            }
            Search::Open(_) => {}
        }
    }
}

#[test]
fn scan_keeps_what_parses_and_reports_the_rest() {
    let (catalog, refused) = scanned_directory();
    let names: Vec<&str> = catalog.iter().map(|m| m.file_name.as_str()).collect();
    assert_eq!(names, vec!["addon.jar", "bundle.jar", "maps.jar", "sounds.jar", "tools.jar"]);
    assert_eq!(
        refused,
        vec![
            ("notes.txt".to_string(), ScanError::InvalidExtension),
            ("broken.jar".to_string(), ScanError::NotAnArchive),
        ]
    );
    assert_eq!(catalog[1].get_mod_ids(), vec!["bundle", "library"]);
    assert_eq!(catalog[1].get_required_ids(), vec!["neoforge", "minecraft"]);
    assert_eq!(catalog[0].get_required_ids(), vec!["bundle", "library"]);
}

#[test]
fn search_over_a_scanned_directory_finds_an_independent_package() {
    let (catalog, _) = scanned_directory();
    for (culprit, asked) in [("tools.jar", 3), ("maps.jar", 2), ("sounds.jar", 3)] {
        let (found, questions, active) = run(&catalog, &[], culprit);
        assert_eq!(found, culprit);
        assert_eq!(questions, asked);
        assert_eq!(active, vec![culprit.to_string()]);
    }
}

#[test]
fn pinned_package_stays_active_while_the_culprit_is_in_the_kept_half() {
    let (catalog, _) = scanned_directory();
    let builtin = builtin_mods();
    let pins = vec!["addon".to_string()];
    let search = Search::Open(catalog.iter().collect());
    let step = bisect(&search, false, &pins, &builtin).unwrap();
    assert_eq!(step.moves, vec![Move::Park(2), Move::Park(3), Move::Park(4)]);
    match &step.search {
        Search::Asked(_, round) => assert_eq!(round.kept.positions(), vec![0, 1]),
        other => panic!("unexpected: {other:?}"),
    }
}
