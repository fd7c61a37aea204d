//! Packages and the declarations they carry.

use vstd::prelude::*;

verus! {

/// One package-identity record found inside an archive.
#[derive(Debug)]
pub struct ModMetadata {
    pub name: String,
    pub id: String,
    pub dependencies: Vec<String>,
}

/// Mathematical model of a [`ModMetadata`].
pub struct Declaration {
    pub name: Seq<char>,
    pub id: Seq<char>,
    pub dependencies: Seq<Seq<char>>,
}

/// One scanned archive, identified by its file name.
#[derive(Debug)]
pub struct ModFile {
    pub file_name: String,
    pub meta_list: Vec<ModMetadata>,
}

/// Mathematical model of a [`ModFile`].
pub struct Package {
    pub file_name: Seq<char>,
    pub declarations: Seq<Declaration>,
}

impl Package {
    /// Whether one of the package's declarations carries `id`.
    pub open spec fn declares(self, id: Seq<char>) -> bool {
        exists|k: int| 0 <= k < self.declarations.len() && (#[trigger] self.declarations[k]).id == id
    }

    /// The ids of the package's declarations, in order.
    pub open spec fn ids(self) -> Seq<Seq<char>> {
        self.declarations.map_values(|d: Declaration| d.id)
    }

    /// The required-dependency ids of all the package's declarations, in order,
    /// duplicates included.
    pub open spec fn required_ids(self) -> Seq<Seq<char>> {
        self.declarations.map_values(|d: Declaration| d.dependencies).flatten()
    }
}

impl View for ModMetadata {
    type V = Declaration;

    open spec fn view(&self) -> Declaration {
        Declaration {
            name: self.name@,
            id: self.id@,
            dependencies: self.dependencies.deep_view(),
        }
    }
}

impl DeepView for ModMetadata {
    type V = Declaration;

    open spec fn deep_view(&self) -> Declaration {
        self@
    }
}

impl View for ModFile {
    type V = Package;

    open spec fn view(&self) -> Package {
        Package { file_name: self.file_name@, declarations: self.meta_list.deep_view() }
    }
}

impl DeepView for ModFile {
    type V = Package;

    open spec fn deep_view(&self) -> Package {
        self@
    }
}

impl PartialEq for ModFile {
    fn eq(&self, other: &Self) -> (same: bool) {
        self.file_name == other.file_name
    }
}

impl vstd::std_specs::cmp::PartialEqSpecImpl for ModFile {
    open spec fn obeys_eq_spec() -> bool {
        true
    }

    open spec fn eq_spec(&self, other: &Self) -> bool {
        self.file_name@ == other.file_name@
    }
}

impl Eq for ModFile {}

} // verus!
