//! The primary descriptor of an archive: which packages it declares, and
//! which ids each of them requires.

use crate::document::Tree;
use crate::error::ScanError;
use crate::formats::{
    toml_as_array, toml_as_bool, toml_as_str, toml_content, toml_document, toml_from_str, toml_get,
    toml_is_table,
};
use crate::model::{Declaration, ModMetadata};
use crate::text::{ascii_lowercase, lowercase_is};
use vstd::prelude::*;

verus! {

/// Whether a dependency entry marks its dependency as required: by a type
/// that reads "required" in any case, or by a `required` or `mandatory` flag
/// that is set.
pub open spec fn is_required(entry: Tree) -> bool {
    ||| entry.get("type"@) matches Some(kind) && kind.as_str() matches Some(text)
        && ascii_lowercase(text) == "required"@
    ||| entry.get("required"@) matches Some(flag) && flag.as_bool() == Some(true)
    ||| entry.get("mandatory"@) matches Some(flag) && flag.as_bool() == Some(true)
}

/// The id that a dependency entry contributes: that of a required entry whose
/// `modId` is a string.
pub open spec fn required_id(entry: Tree) -> Option<Seq<char>> {
    if is_required(entry) {
        match entry.get("modId"@) {
            Some(id) => id.as_str(),
            None => None,
        }
    } else {
        None
    }
}

/// The ids that the dependency entries contribute, in the order of the
/// entries, duplicates included.
pub open spec fn required_ids(entries: Seq<Tree>) -> Seq<Seq<char>>
    decreases entries.len(),
{
    if entries.len() == 0 {
        Seq::empty()
    } else {
        let earlier = required_ids(entries.drop_last());
        match required_id(entries.last()) {
            Some(id) => earlier.push(id),
            None => earlier,
        }
    }
}

/// The dependency entries that the `dependencies` table lists for `id`; none
/// where there is no table, no entry for `id`, or an entry that is no list.
pub open spec fn dependency_entries(dependencies: Option<Tree>, id: Seq<char>) -> Seq<Tree> {
    match dependencies {
        Some(table) => match table.get(id) {
            Some(listed) => match listed.as_array() {
                Some(entries) => entries,
                None => Seq::empty(),
            },
            None => Seq::empty(),
        },
        None => Seq::empty(),
    }
}

/// The declaration that one entry of `mods` stands for.
pub open spec fn declaration(item: Tree, dependencies: Option<Tree>) -> Result<
    Declaration,
    ScanError,
> {
    match item.get("modId"@) {
        None => Err(ScanError::MissingModId),
        Some(id) => match id.as_str() {
            None => Err(ScanError::ModIdNotString),
            Some(id) => match item.get("displayName"@) {
                None => Err(ScanError::MissingDisplayName),
                Some(name) => match name.as_str() {
                    None => Err(ScanError::DisplayNameNotString),
                    Some(name) => Ok(
                        Declaration {
                            name,
                            id,
                            dependencies: required_ids(dependency_entries(dependencies, id)),
                        },
                    ),
                },
            },
        },
    }
}

/// The declarations that the entries of `mods` stand for, in order; the
/// failure of the first entry that stands for none.
pub open spec fn declarations(items: Seq<Tree>, dependencies: Option<Tree>) -> Result<
    Seq<Declaration>,
    ScanError,
>
    decreases items.len(),
{
    if items.len() == 0 {
        Ok(Seq::empty())
    } else {
        match declarations(items.drop_last(), dependencies) {
            Err(error) => Err(error),
            Ok(earlier) => match declaration(items.last(), dependencies) {
                Err(error) => Err(error),
                Ok(last) => Ok(earlier.push(last)),
            },
        }
    }
}

/// What a descriptor declares: one declaration for each entry of its `mods`
/// list, with the required ids that its `dependencies` table lists for it.
pub open spec fn descriptor(root: Tree) -> Result<Seq<Declaration>, ScanError> {
    match root.get("mods"@) {
        None => Err(ScanError::MissingMods),
        Some(mods) => match mods.as_array() {
            None => Err(ScanError::ModsNotArray),
            Some(items) => match root.get("dependencies"@) {
                None => declarations(items, None),
                Some(table) => if table is Table {
                    declarations(items, Some(table))
                } else {
                    Err(ScanError::DependenciesNotTable)
                },
            },
        },
    }
}

/// What a descriptor's text declares.
pub open spec fn parsed_descriptor(text: Seq<char>) -> Result<Seq<Declaration>, ScanError> {
    match toml_document(text) {
        None => Err(ScanError::MalformedDescriptor),
        Some(root) => descriptor(root),
    }
}

/// The models of the values in a list.
pub open spec fn toml_contents(values: Seq<toml::Value>) -> Seq<Tree> {
    values.map_values(|value: toml::Value| toml_content(value))
}

/// Whether the flag under `key` in `entry` is set.
fn flag_is_set(entry: &toml::Value, key: &str) -> (set: bool)
    ensures
        set == (toml_content(*entry).get(key@) matches Some(flag) && flag.as_bool() == Some(true)),
{
    match toml_get(entry, key) {
        Some(flag) => match toml_as_bool(flag) {
            Some(set) => set,
            None => false,
        },
        None => false,
    }
}

/// Whether a dependency entry marks its dependency as required.
pub fn entry_is_required(entry: &toml::Value) -> (required: bool)
    ensures
        required == is_required(toml_content(*entry)),
{
    let by_type = match toml_get(entry, "type") {
        Some(kind) => match toml_as_str(kind) {
            Some(text) => lowercase_is(text, "required"),
            None => false,
        },
        None => false,
    };
    by_type || flag_is_set(entry, "required") || flag_is_set(entry, "mandatory")
}

/// The ids of the required dependencies among `entries`, in order.
pub fn read_required(entries: &Vec<toml::Value>) -> (ids: Vec<String>)
    ensures
        ids.deep_view() == required_ids(toml_contents(entries@)),
{
    let ghost trees = toml_contents(entries@);
    let mut ids: Vec<String> = Vec::new();
    let mut i: usize = 0;
    assert(trees.take(0) =~= Seq::<Tree>::empty());
    while i < entries.len()
        invariant
            i <= entries.len(),
            trees == toml_contents(entries@),
            ids.deep_view() == required_ids(trees.take(i as int)),
        decreases entries.len() - i,
    {
        let entry = &entries[i];
        let ghost before = ids.deep_view();
        proof {
            assert(trees.take(i + 1).drop_last() =~= trees.take(i as int));
            assert(trees.take(i + 1).last() == toml_content(*entry));
        }
        if entry_is_required(entry) {
            if let Some(id) = toml_get(entry, "modId") {
                if let Some(text) = toml_as_str(id) {
                    ids.push(text.to_owned());
                    assert(ids.deep_view() =~= before.push(text@));
                }
            }
        }
        i += 1;
    }
    assert(trees.take(i as int) =~= trees);
    ids
}

/// The declaration that one entry of `mods` stands for; `dependencies` is the
/// descriptor's table of dependencies, if it has one.
pub fn read_declaration(item: &toml::Value, dependencies: Option<&toml::Value>) -> (result: Result<
    ModMetadata,
    ScanError,
>)
    ensures
        match result {
            Ok(metadata) => Ok::<Declaration, ScanError>(metadata@) == declaration(
                toml_content(*item),
                match dependencies {
                    Some(table) => Some(toml_content(*table)),
                    None => None,
                },
            ),
            Err(error) => Err::<Declaration, ScanError>(error) == declaration(
                toml_content(*item),
                match dependencies {
                    Some(table) => Some(toml_content(*table)),
                    None => None,
                },
            ),
        },
{
    let id = match toml_get(item, "modId") {
        Some(id) => match toml_as_str(id) {
            Some(id) => id,
            None => {
                return Err(ScanError::ModIdNotString);
            },
        },
        None => {
            return Err(ScanError::MissingModId);
        },
    };
    let name = match toml_get(item, "displayName") {
        Some(name) => match toml_as_str(name) {
            Some(name) => name,
            None => {
                return Err(ScanError::DisplayNameNotString);
            },
        },
        None => {
            return Err(ScanError::MissingDisplayName);
        },
    };
    let listed = match dependencies {
        Some(table) => match toml_get(table, id) {
            Some(listed) => toml_as_array(listed),
            None => None,
        },
        None => None,
    };
    let required = match listed {
        Some(entries) => read_required(entries),
        None => {
            let none: Vec<String> = Vec::new();
            assert(none.deep_view() =~= required_ids(Seq::<Tree>::empty()));
            none
        },
    };
    Ok(ModMetadata { name: name.to_owned(), id: id.to_owned(), dependencies: required })
}

/// The declarations of a descriptor whose document has been parsed.
pub fn read_descriptor(root: &toml::Value) -> (result: Result<Vec<ModMetadata>, ScanError>)
    ensures
        match result {
            Ok(list) => Ok::<Seq<Declaration>, ScanError>(list.deep_view()) == descriptor(
                toml_content(*root),
            ),
            Err(error) => Err::<Seq<Declaration>, ScanError>(error) == descriptor(
                toml_content(*root),
            ),
        },
{
    let items = match toml_get(root, "mods") {
        Some(mods) => match toml_as_array(mods) {
            Some(items) => items,
            None => {
                return Err(ScanError::ModsNotArray);
            },
        },
        None => {
            return Err(ScanError::MissingMods);
        },
    };
    let dependencies = toml_get(root, "dependencies");
    if let Some(table) = dependencies {
        if !toml_is_table(table) {
            return Err(ScanError::DependenciesNotTable);
        }
    }
    let ghost trees = toml_contents(items@);
    let ghost table = match dependencies {
        Some(table) => Some(toml_content(*table)),
        None => None,
    };
    let mut list: Vec<ModMetadata> = Vec::new();
    let mut i: usize = 0;
    assert(trees.take(0) =~= Seq::<Tree>::empty());
    assert(list.deep_view() =~= Seq::<Declaration>::empty());
    while i < items.len()
        invariant
            i <= items.len(),
            trees == toml_contents(items@),
            table == match dependencies {
                Some(table) => Some(toml_content(*table)),
                None => None,
            },
            descriptor(toml_content(*root)) == declarations(trees, table),
            Ok::<Seq<Declaration>, ScanError>(list.deep_view()) == declarations(
                trees.take(i as int),
                table,
            ),
        decreases items.len() - i,
    {
        let ghost before = list.deep_view();
        proof {
            assert(trees.take(i + 1).drop_last() =~= trees.take(i as int));
            assert(trees.take(i + 1).last() == toml_content(items@[i as int]));
        }
        match read_declaration(&items[i], dependencies) {
            Ok(metadata) => {
                list.push(metadata);
                assert(list.deep_view() =~= before.push(metadata@));
            },
            Err(error) => {
                proof {
                    lemma_declarations_fail(trees, table, i + 1);
                }
                return Err(error);
            },
        }
        i += 1;
    }
    assert(trees.take(i as int) =~= trees);
    Ok(list)
}

/// A failure among the first entries is the failure of the whole list.
pub proof fn lemma_declarations_fail(items: Seq<Tree>, dependencies: Option<Tree>, count: int)
    requires
        0 <= count <= items.len(),
        declarations(items.take(count), dependencies) is Err,
    ensures
        declarations(items, dependencies) == declarations(items.take(count), dependencies),
    decreases items.len() - count,
{
    if count < items.len() {
        assert(items.take(count + 1).drop_last() =~= items.take(count));
        lemma_declarations_fail(items, dependencies, count + 1);
    } else {
        assert(items.take(count) =~= items);
    }
}

/// The packages that a descriptor declares, each with its required
/// dependencies.
///
/// `meta_content` is the descriptor's text. Each entry of its `mods` list
/// must hold a `modId` and a `displayName`, both strings. Of the entries that
/// the `dependencies` table lists under a package's id, those marked as
/// required contribute their `modId`, in order and with duplicates.
pub fn parse_neoforge_meta(meta_content: &str) -> (result: Result<Vec<ModMetadata>, ScanError>)
    ensures
        match result {
            Ok(list) => Ok::<Seq<Declaration>, ScanError>(list.deep_view()) == parsed_descriptor(
                meta_content@,
            ),
            Err(error) => Err::<Seq<Declaration>, ScanError>(error) == parsed_descriptor(
                meta_content@,
            ),
        },
{
    match toml_from_str(meta_content) {
        Ok(root) => read_descriptor(&root),
        Err(_) => Err(ScanError::MalformedDescriptor),
    }
}

} // verus!
