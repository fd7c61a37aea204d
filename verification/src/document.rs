//! The shape of structured documents, as the descriptor and the manifest of
//! an archive hold them: trees of strings, flags, lists and keyed tables.

use vstd::prelude::*;

verus! {

/// Mathematical model of one value of a structured document.
pub enum Tree {
    String(Seq<char>),
    Boolean(bool),
    Array(Seq<Tree>),
    Table(Map<Seq<char>, Tree>),
    /// A value of a kind that no reader looks into: a number, a date, a null.
    Other,
}

impl Tree {
    /// The value under `key`, where this is a table that holds the key.
    pub open spec fn get(self, key: Seq<char>) -> Option<Tree> {
        match self {
            Tree::Table(entries) => if entries.contains_key(key) {
                Some(entries[key])
            } else {
                None
            },
            _ => None,
        }
    }

    /// The items, where this is a list.
    pub open spec fn as_array(self) -> Option<Seq<Tree>> {
        match self {
            Tree::Array(items) => Some(items),
            _ => None,
        }
    }

    /// The text, where this is a string.
    pub open spec fn as_str(self) -> Option<Seq<char>> {
        match self {
            Tree::String(text) => Some(text),
            _ => None,
        }
    }

    /// The flag, where this is one.
    pub open spec fn as_bool(self) -> Option<bool> {
        match self {
            Tree::Boolean(flag) => Some(flag),
            _ => None,
        }
    }
}

} // verus!
