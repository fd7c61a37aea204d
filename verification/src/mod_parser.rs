//! Reading a package archive: its own descriptor first, then the archives
//! nested in it, in the order in which its manifest lists them.

use crate::descriptor::{parse_neoforge_meta, parsed_descriptor};
use crate::document::Tree;
use crate::error::ScanError;
use crate::formats::{
    json_as_array, json_as_str, json_content, json_document, json_from_str, json_get, read_entry,
    text_from_utf8, zip_entry, Entry, EntryContent,
};
use crate::model::{Declaration, ModFile, ModMetadata};
use vstd::prelude::*;
use vstd::utf8::{decode_utf8, valid_utf8};

verus! {

/// The entry that holds an archive's descriptor.
pub const DESCRIPTOR_ENTRY: &'static str = "META-INF/neoforge.mods.toml";

/// The entry that lists the archives nested in an archive.
pub const MANIFEST_ENTRY: &'static str = "META-INF/jarjar/metadata.json";

/// The extension of a package archive's file name.
pub const ARCHIVE_EXTENSION: &'static str = "jar";

/// How many levels of nested archives are followed below the archive itself.
pub const MAX_NESTING: usize = 16;

/// Whether `dot` is the place of the last `.` in `file_name`.
pub open spec fn is_last_dot(file_name: Seq<char>, dot: int) -> bool {
    &&& 0 <= dot < file_name.len()
    &&& file_name[dot] == '.'
    &&& forall|later: int| dot < later < file_name.len() ==> file_name[later] != '.'
}

/// The extension of a file name: what follows its last `.`, unless that is
/// its first character or the name is `..`; none where it has no `.`.
pub open spec fn extension(file_name: Seq<char>) -> Option<Seq<char>> {
    if file_name != seq!['.', '.'] && exists|dot: int| 0 < dot && is_last_dot(file_name, dot) {
        let dot = choose|dot: int| 0 < dot && is_last_dot(file_name, dot);
        Some(file_name.skip(dot + 1))
    } else {
        None
    }
}

/// Whether a file name is that of a package archive, and if not, why not.
pub open spec fn checked_extension(file_name: Seq<char>) -> Result<(), ScanError> {
    match extension(file_name) {
        None => Err(ScanError::MissingExtension),
        Some(found) => if found == ARCHIVE_EXTENSION@ {
            Ok(())
        } else {
            Err(ScanError::InvalidExtension)
        },
    }
}

/// The text of an entry that an archive may hold or not.
pub open spec fn optional_text(bytes: Seq<u8>, name: Seq<char>) -> Result<
    Option<Seq<char>>,
    ScanError,
> {
    match zip_entry(bytes, name) {
        EntryContent::NotAnArchive => Err(ScanError::NotAnArchive),
        EntryContent::Absent => Ok(None),
        EntryContent::Unreadable => Err(ScanError::UnreadableEntry),
        EntryContent::Content(content) => if valid_utf8(content) {
            Ok(Some(decode_utf8(content)))
        } else {
            Err(ScanError::InvalidText)
        },
    }
}

/// What an archive's own descriptor declares; nothing where it has none.
pub open spec fn own_declarations(descriptor: Option<Seq<char>>) -> Result<
    Seq<Declaration>,
    ScanError,
> {
    match descriptor {
        None => Ok(Seq::empty()),
        Some(text) => parsed_descriptor(text),
    }
}

/// The entries of a manifest of nested archives.
pub open spec fn manifest_entries(root: Tree) -> Result<Seq<Tree>, ScanError> {
    match root.get("jars"@) {
        None => Err(ScanError::MissingJars),
        Some(jars) => match jars.as_array() {
            None => Err(ScanError::JarsNotArray),
            Some(items) => Ok(items),
        },
    }
}

/// The path within the archive that an entry of the manifest names.
pub open spec fn entry_path(item: Tree) -> Result<Seq<char>, ScanError> {
    match item.get("path"@) {
        None => Err(ScanError::MissingPath),
        Some(path) => match path.as_str() {
            None => Err(ScanError::PathNotString),
            Some(text) => Ok(text),
        },
    }
}

/// The declarations of the archive `bytes`: those of its own descriptor,
/// followed by those of the archives that its manifest lists, in the
/// manifest's order. Nested archives are followed `depth` levels down.
pub open spec fn archive_declarations(bytes: Seq<u8>, depth: nat) -> Result<
    Seq<Declaration>,
    ScanError,
>
    decreases depth, 1nat, 0nat,
{
    match optional_text(bytes, DESCRIPTOR_ENTRY@) {
        Err(error) => Err(error),
        Ok(descriptor) => match own_declarations(descriptor) {
            Err(error) => Err(error),
            Ok(own) => match optional_text(bytes, MANIFEST_ENTRY@) {
                Err(error) => Err(error),
                Ok(None) => Ok(own),
                Ok(Some(text)) => match json_document(text) {
                    None => Err(ScanError::MalformedManifest),
                    Some(root) => match manifest_entries(root) {
                        Err(error) => Err(error),
                        Ok(items) => match nested_declarations(bytes, items, depth) {
                            Err(error) => Err(error),
                            Ok(nested) => Ok(own + nested),
                        },
                    },
                },
            },
        },
    }
}

/// The declarations of the archives that the manifest entries `items` name
/// within the archive `bytes`, in the order of the entries.
pub open spec fn nested_declarations(bytes: Seq<u8>, items: Seq<Tree>, depth: nat) -> Result<
    Seq<Declaration>,
    ScanError,
>
    decreases depth, 0nat, items.len(),
{
    if items.len() == 0 {
        Ok(Seq::empty())
    } else {
        match nested_declarations(bytes, items.drop_last(), depth) {
            Err(error) => Err(error),
            Ok(earlier) => match entry_path(items.last()) {
                Err(error) => Err(error),
                Ok(path) => match zip_entry(bytes, path) {
                    EntryContent::NotAnArchive => Err(ScanError::NotAnArchive),
                    EntryContent::Absent => Err(ScanError::MissingNestedArchive),
                    EntryContent::Unreadable => Err(ScanError::UnreadableEntry),
                    EntryContent::Content(inner) => if depth == 0 {
                        Err(ScanError::NestedTooDeeply)
                    } else {
                        match archive_declarations(inner, (depth - 1) as nat) {
                            Err(error) => Err(error),
                            Ok(found) => Ok(earlier + found),
                        }
                    },
                },
            },
        }
    }
}

/// What scanning the archive `bytes` under the name `file_name` yields.
pub open spec fn scanned(file_name: Seq<char>, bytes: Seq<u8>) -> Result<
    Seq<Declaration>,
    ScanError,
> {
    match checked_extension(file_name) {
        Err(error) => Err(error),
        Ok(_) => archive_declarations(bytes, MAX_NESTING as nat),
    }
}

/// The models of the values in a list.
pub open spec fn json_contents(values: Seq<serde_json::Value>) -> Seq<Tree> {
    values.map_values(|value: serde_json::Value| json_content(value))
}

/// Whether `file_name` has the extension of a package archive.
pub fn check_extension(file_name: &str) -> (result: Result<(), ScanError>)
    ensures
        result == checked_extension(file_name@),
{
    let length = file_name.unicode_len();
    let ghost name = file_name@;
    proof {
        reveal_strlit("jar");
    }
    if length == 2 && file_name.get_char(0) == '.' && file_name.get_char(1) == '.' {
        assert(name =~= seq!['.', '.']);
        return Err(ScanError::MissingExtension);
    }
    let mut dot: usize = length;
    while dot > 1 && file_name.get_char(dot - 1) != '.'
        invariant
            dot <= length,
            length == name.len(),
            name == file_name@,
            forall|later: int| dot - 1 < later < length && 0 <= later ==> name[later] != '.',
        decreases dot,
    {
        dot -= 1;
    }
    if dot <= 1 {
        assert(!exists|d: int| 0 < d && is_last_dot(name, d));
        return Err(ScanError::MissingExtension);
    }
    assert(is_last_dot(name, dot - 1));
    let ghost found = choose|d: int| 0 < d && is_last_dot(name, d);
    assert(found == dot - 1);
    assert(extension(name) == Some(name.skip(dot as int)));
    if length - dot == 3 && file_name.get_char(dot) == 'j' && file_name.get_char(dot + 1) == 'a'
        && file_name.get_char(dot + 2) == 'r' {
        assert(name.skip(dot as int) =~= ARCHIVE_EXTENSION@);
        Ok(())
    } else {
        assert(name.skip(dot as int) != ARCHIVE_EXTENSION@) by {
            if name.skip(dot as int).len() == 3 {
                assert(name.skip(dot as int)[0] == name[dot as int]);
                assert(name.skip(dot as int)[1] == name[dot + 1]);
                assert(name.skip(dot as int)[2] == name[dot + 2]);
            }
        }
        Err(ScanError::InvalidExtension)
    }
}

/// The text of the entry `name` of the archive `bytes`, if it holds one.
pub fn read_optional_text(bytes: &Vec<u8>, name: &str) -> (result: Result<Option<String>, ScanError>)
    ensures
        match result {
            Ok(Some(text)) => optional_text(bytes@, name@) == Ok::<Option<Seq<char>>, ScanError>(
                Some(text@),
            ),
            Ok(None) => optional_text(bytes@, name@) == Ok::<Option<Seq<char>>, ScanError>(None),
            Err(error) => optional_text(bytes@, name@) == Err::<Option<Seq<char>>, ScanError>(
                error,
            ),
        },
{
    match read_entry(bytes, name) {
        Entry::NotAnArchive => Err(ScanError::NotAnArchive),
        Entry::Absent => Ok(None),
        Entry::Unreadable => Err(ScanError::UnreadableEntry),
        Entry::Content(content) => match text_from_utf8(content) {
            Some(text) => Ok(Some(text)),
            None => Err(ScanError::InvalidText),
        },
    }
}

/// The entries of a manifest whose document has been parsed.
pub fn read_manifest<'a>(root: &'a serde_json::Value) -> (result: Result<
    &'a Vec<serde_json::Value>,
    ScanError,
>)
    ensures
        match result {
            Ok(items) => manifest_entries(json_content(*root)) == Ok::<Seq<Tree>, ScanError>(
                json_contents(items@),
            ),
            Err(error) => manifest_entries(json_content(*root)) == Err::<Seq<Tree>, ScanError>(
                error,
            ),
        },
{
    match json_get(root, "jars") {
        Some(jars) => match json_as_array(jars) {
            Some(items) => Ok(items),
            None => Err(ScanError::JarsNotArray),
        },
        None => Err(ScanError::MissingJars),
    }
}

/// The path that an entry of the manifest names.
pub fn read_entry_path<'a>(item: &'a serde_json::Value) -> (result: Result<&'a str, ScanError>)
    ensures
        match result {
            Ok(path) => entry_path(json_content(*item)) == Ok::<Seq<char>, ScanError>(path@),
            Err(error) => entry_path(json_content(*item)) == Err::<Seq<char>, ScanError>(error),
        },
{
    match json_get(item, "path") {
        Some(path) => match json_as_str(path) {
            Some(text) => Ok(text),
            None => Err(ScanError::PathNotString),
        },
        None => Err(ScanError::MissingPath),
    }
}

/// A failure among the first entries is the failure of the whole list.
pub proof fn lemma_nested_fail(bytes: Seq<u8>, items: Seq<Tree>, depth: nat, count: int)
    requires
        0 <= count <= items.len(),
        nested_declarations(bytes, items.take(count), depth) is Err,
    ensures
        nested_declarations(bytes, items, depth) == nested_declarations(
            bytes,
            items.take(count),
            depth,
        ),
    decreases items.len() - count,
{
    if count < items.len() {
        assert(items.take(count + 1).drop_last() =~= items.take(count));
        lemma_nested_fail(bytes, items, depth, count + 1);
    } else {
        assert(items.take(count) =~= items);
    }
}

/// The declarations of the archives that `items` name within the archive
/// `bytes`, in the order of `items`.
pub fn read_nested(bytes: &Vec<u8>, items: &Vec<serde_json::Value>, depth: usize) -> (result: Result<
    Vec<ModMetadata>,
    ScanError,
>)
    ensures
        match result {
            Ok(list) => Ok::<Seq<Declaration>, ScanError>(list.deep_view()) == nested_declarations(
                bytes@,
                json_contents(items@),
                depth as nat,
            ),
            Err(error) => Err::<Seq<Declaration>, ScanError>(error) == nested_declarations(
                bytes@,
                json_contents(items@),
                depth as nat,
            ),
        },
    decreases depth, 0nat, items.len(),
{
    let ghost trees = json_contents(items@);
    let mut list: Vec<ModMetadata> = Vec::new();
    let mut i: usize = 0;
    assert(trees.take(0) =~= Seq::<Tree>::empty());
    assert(list.deep_view() =~= Seq::<Declaration>::empty());
    while i < items.len()
        invariant
            i <= items.len(),
            trees == json_contents(items@),
            Ok::<Seq<Declaration>, ScanError>(list.deep_view()) == nested_declarations(
                bytes@,
                trees.take(i as int),
                depth as nat,
            ),
        decreases items.len() - i,
    {
        let ghost before = list.deep_view();
        proof {
            assert(trees.take(i + 1).drop_last() =~= trees.take(i as int));
            assert(trees.take(i + 1).last() == json_content(items@[i as int]));
        }
        let found = match read_entry_path(&items[i]) {
            Err(error) => Err(error),
            Ok(path) => match read_entry(bytes, path) {
                Entry::NotAnArchive => Err(ScanError::NotAnArchive),
                Entry::Absent => Err(ScanError::MissingNestedArchive),
                Entry::Unreadable => Err(ScanError::UnreadableEntry),
                Entry::Content(inner) => if depth == 0 {
                    Err(ScanError::NestedTooDeeply)
                } else {
                    read_archive(&inner, depth - 1)
                },
            },
        };
        match found {
            Ok(mut found) => {
                let ghost added = found.deep_view();
                list.append(&mut found);
                assert(list.deep_view() =~= before + added);
            },
            Err(error) => {
                proof {
                    lemma_nested_fail(bytes@, trees, depth as nat, i + 1);
                }
                return Err(error);
            },
        }
        i += 1;
    }
    assert(trees.take(i as int) =~= trees);
    Ok(list)
}

/// The declarations of the archive `bytes`, nested archives being followed
/// `depth` levels down.
pub fn read_archive(bytes: &Vec<u8>, depth: usize) -> (result: Result<Vec<ModMetadata>, ScanError>)
    ensures
        match result {
            Ok(list) => Ok::<Seq<Declaration>, ScanError>(list.deep_view()) == archive_declarations(
                bytes@,
                depth as nat,
            ),
            Err(error) => Err::<Seq<Declaration>, ScanError>(error) == archive_declarations(
                bytes@,
                depth as nat,
            ),
        },
    decreases depth, 1nat, 0nat,
{
    let mut list = match read_optional_text(bytes, DESCRIPTOR_ENTRY) {
        Err(error) => {
            return Err(error);
        },
        Ok(None) => {
            let none: Vec<ModMetadata> = Vec::new();
            assert(none.deep_view() =~= Seq::<Declaration>::empty());
            none
        },
        Ok(Some(text)) => match parse_neoforge_meta(text.as_str()) {
            Err(error) => {
                return Err(error);
            },
            Ok(own) => own,
        },
    };
    let manifest = match read_optional_text(bytes, MANIFEST_ENTRY) {
        Err(error) => {
            return Err(error);
        },
        Ok(None) => {
            return Ok(list);
        },
        Ok(Some(text)) => text,
    };
    let root = match json_from_str(manifest.as_str()) {
        Err(_) => {
            return Err(ScanError::MalformedManifest);
        },
        Ok(root) => root,
    };
    let items = match read_manifest(&root) {
        Err(error) => {
            return Err(error);
        },
        Ok(items) => items,
    };
    let mut nested = match read_nested(bytes, items, depth) {
        Err(error) => {
            return Err(error);
        },
        Ok(nested) => nested,
    };
    let ghost own = list.deep_view();
    let ghost added = nested.deep_view();
    list.append(&mut nested);
    assert(list.deep_view() =~= own + added);
    Ok(list)
}

/// The package that the archive `bytes` holds, under the name `file_name`.
///
/// The package's declarations are those of the archive's own descriptor,
/// followed by those of the archives nested in it, in the order in which its
/// manifest lists them. An archive without descriptor declares nothing of
/// its own; one without manifest holds no nested archives.
pub fn parse_mod_zip(bytes: &Vec<u8>, file_name: &str) -> (result: Result<ModFile, ScanError>)
    ensures
        match result {
            Ok(package) => {
                &&& package@.file_name == file_name@
                &&& Ok::<Seq<Declaration>, ScanError>(package@.declarations)
                    == archive_declarations(bytes@, MAX_NESTING as nat)
            },
            Err(error) => Err::<Seq<Declaration>, ScanError>(error) == archive_declarations(
                bytes@,
                MAX_NESTING as nat,
            ),
        },
{
    match read_archive(bytes, MAX_NESTING) {
        Ok(meta_list) => Ok(ModFile { file_name: file_name.to_owned(), meta_list }),
        Err(error) => Err(error),
    }
}

/// The package that the file `file_name` holds, `bytes` being the file's
/// content. A file name without the extension of a package archive is
/// refused before anything is read from `bytes`.
pub fn parse_mod(file_name: &str, bytes: &Vec<u8>) -> (result: Result<ModFile, ScanError>)
    ensures
        match result {
            Ok(package) => {
                &&& package@.file_name == file_name@
                &&& Ok::<Seq<Declaration>, ScanError>(package@.declarations) == scanned(
                    file_name@,
                    bytes@,
                )
            },
            Err(error) => Err::<Seq<Declaration>, ScanError>(error) == scanned(file_name@, bytes@),
        },
{
    match check_extension(file_name) {
        Ok(_) => parse_mod_zip(bytes, file_name),
        Err(error) => Err(error),
    }
}

} // verus!
