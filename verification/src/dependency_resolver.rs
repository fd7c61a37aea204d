//! Which further packages a package needs beside a given selection.

use crate::error::{BisectError, Failure};
use crate::model::{Declaration, ModFile, Package};
use crate::selection::Selection;
use vstd::prelude::*;

verus! {

/// Whether `position` holds the first candidate that declares `id`.
pub open spec fn is_provider(candidates: Seq<Package>, id: Seq<char>, position: int) -> bool {
    &&& 0 <= position < candidates.len()
    &&& candidates[position].declares(id)
    &&& forall|earlier: int|
        0 <= earlier < position ==> !(#[trigger] candidates[earlier]).declares(id)
}

/// Whether no candidate declares `id`.
pub open spec fn unprovided(candidates: Seq<Package>, id: Seq<char>) -> bool {
    forall|j: int| 0 <= j < candidates.len() ==> !(#[trigger] candidates[j]).declares(id)
}

/// Whether a selected candidate declares `id`.
pub open spec fn selected_declares(
    candidates: Seq<Package>,
    selected: Set<int>,
    id: Seq<char>,
) -> bool {
    exists|j: int|
        0 <= j < candidates.len() && selected.contains(j) && (#[trigger] candidates[j]).declares(
            id,
        )
}

/// Whether `id`, required by `package`, needs no further package: the package
/// declares it itself, it is built in, or a selected candidate declares it.
pub open spec fn satisfied(
    package: Package,
    candidates: Seq<Package>,
    selected: Set<int>,
    builtin: Seq<Seq<char>>,
    id: Seq<char>,
) -> bool {
    package.declares(id) || builtin.contains(id) || selected_declares(candidates, selected, id)
}

/// Whether `id`, required by `package`, can be satisfied by nothing at hand.
pub open spec fn missing(
    package: Package,
    candidates: Seq<Package>,
    selected: Set<int>,
    builtin: Seq<Seq<char>>,
    id: Seq<char>,
) -> bool {
    !satisfied(package, candidates, selected, builtin, id) && unprovided(candidates, id)
}

/// Whether the requirement at `index` is the first one of `package` that is missing.
pub open spec fn first_missing(
    package: Package,
    candidates: Seq<Package>,
    selected: Set<int>,
    builtin: Seq<Seq<char>>,
    index: int,
) -> bool {
    let required = package.required_ids();
    &&& 0 <= index < required.len()
    &&& missing(package, candidates, selected, builtin, required[index])
    &&& forall|before: int|
        0 <= before < index ==> !missing(
            package,
            candidates,
            selected,
            builtin,
            #[trigger] required[before],
        )
}

/// The providers of the first `count` requirements of `package` that are not
/// yet satisfied.
pub open spec fn providers_of_first(
    package: Package,
    candidates: Seq<Package>,
    selected: Set<int>,
    builtin: Seq<Seq<char>>,
    count: int,
) -> Set<int> {
    let required = package.required_ids();
    Set::new(
        |j: int|
            exists|n: int|
                0 <= n < count && n < required.len() && !satisfied(
                    package,
                    candidates,
                    selected,
                    builtin,
                    #[trigger] required[n],
                ) && is_provider(candidates, required[n], j),
    )
}

/// What resolving `package` against `candidates` yields: the positions of the
/// candidates to add, or the first requirement that nothing provides.
pub open spec fn resolve(
    package: Package,
    candidates: Seq<Package>,
    selected: Set<int>,
    builtin: Seq<Seq<char>>,
) -> Result<Set<int>, Failure> {
    let required = package.required_ids();
    if exists|n: int| first_missing(package, candidates, selected, builtin, n) {
        let n = choose|n: int| first_missing(package, candidates, selected, builtin, n);
        Err(Failure::MissingDependency(required[n]))
    } else {
        Ok(providers_of_first(package, candidates, selected, builtin, required.len() as int))
    }
}

/// Whether `id` occurs in `ids`.
pub fn contains_id(ids: &Vec<String>, id: &String) -> (found: bool)
    ensures
        found == ids.deep_view().contains(id@),
{
    let mut i: usize = 0;
    while i < ids.len()
        invariant
            i <= ids.len(),
            forall|k: int| 0 <= k < i ==> ids.deep_view()[k] != id@,
        decreases ids.len() - i,
    {
        if ids[i] == *id {
            assert(ids.deep_view()[i as int] == id@);
            return true;
        }
        i += 1;
    }
    false
}

/// The position of the first of `mods` that declares `id`.
pub fn find_provider(mods: &Vec<&ModFile>, id: &String) -> (found: Option<usize>)
    ensures
        match found {
            Some(position) => is_provider(mods.deep_view(), id@, position as int),
            None => unprovided(mods.deep_view(), id@),
        },
{
    let mut i: usize = 0;
    while i < mods.len()
        invariant
            i <= mods.len(),
            forall|k: int| 0 <= k < i ==> !(#[trigger] mods.deep_view()[k]).declares(id@),
        decreases mods.len() - i,
    {
        if mods[i].declares(id) {
            return Some(i);
        }
        i += 1;
    }
    None
}

/// Whether one of the selected `mods` declares `id`.
pub fn selection_declares(mods: &Vec<&ModFile>, selected: &Selection, id: &String) -> (found: bool)
    ensures
        found == selected_declares(mods.deep_view(), selected@, id@),
{
    let mut i: usize = 0;
    while i < mods.len()
        invariant
            i <= mods.len(),
            forall|k: int|
                0 <= k < i && selected@.contains(k) ==> !(#[trigger] mods.deep_view()[k]).declares(
                    id@,
                ),
        decreases mods.len() - i,
    {
        if selected.contains(i) && mods[i].declares(id) {
            assert(selected@.contains(i as int) && mods.deep_view()[i as int].declares(id@));
            return true;
        }
        i += 1;
    }
    false
}

impl ModFile {
    /// The ids that the package declares, in order.
    pub fn get_mod_ids(&self) -> (ids: Vec<&String>)
        ensures
            ids.deep_view() == self@.ids(),
    {
        let mut ids: Vec<&String> = Vec::new();
        let mut k: usize = 0;
        while k < self.meta_list.len()
            invariant
                k <= self.meta_list.len(),
                ids@.len() == k,
                forall|i: int| 0 <= i < k ==> ids@[i]@ == self.meta_list@[i].id@,
            decreases self.meta_list.len() - k,
        {
            ids.push(&self.meta_list[k].id);
            k += 1;
        }
        assert(ids.deep_view() =~= self@.ids());
        ids
    }

    /// Whether the package declares `id`.
    pub fn declares(&self, id: &String) -> (found: bool)
        ensures
            found == self@.declares(id@),
    {
        let mut k: usize = 0;
        while k < self.meta_list.len()
            invariant
                k <= self.meta_list.len(),
                forall|i: int| 0 <= i < k ==> (#[trigger] self@.declarations[i]).id != id@,
            decreases self.meta_list.len() - k,
        {
            if self.meta_list[k].id == *id {
                assert(self@.declarations[k as int].id == id@);
                return true;
            }
            k += 1;
        }
        false
    }

    /// The ids that the package requires, over all its declarations, in order.
    pub fn get_required_ids(&self) -> (ids: Vec<&String>)
        ensures
            ids.deep_view() == self@.required_ids(),
    {
        let ghost lists = self@.declarations.map_values(|d: Declaration| d.dependencies);
        let mut ids: Vec<&String> = Vec::new();
        let mut k: usize = 0;
        assert(lists.take(0) =~= Seq::<Seq<Seq<char>>>::empty());
        while k < self.meta_list.len()
            invariant
                k <= self.meta_list.len(),
                lists == self@.declarations.map_values(|d: Declaration| d.dependencies),
                ids.deep_view() == lists.take(k as int).flatten(),
            decreases self.meta_list.len() - k,
        {
            let dependencies = &self.meta_list[k].dependencies;
            let ghost before = ids.deep_view();
            let mut l: usize = 0;
            while l < dependencies.len()
                invariant
                    l <= dependencies.len(),
                    ids@.len() == before.len() + l,
                    forall|i: int| 0 <= i < before.len() ==> (#[trigger] ids@[i])@ == before[i],
                    forall|i: int|
                        0 <= i < l ==> (#[trigger] ids@[before.len() + i])@ == dependencies@[i]@,
                decreases dependencies.len() - l,
            {
                ids.push(&dependencies[l]);
                l += 1;
            }
            proof {
                assert(ids.deep_view() =~= before + dependencies.deep_view()) by {
                    assert forall|i: int| 0 <= i < ids@.len() implies ids.deep_view()[i] == (before
                        + dependencies.deep_view())[i] by {
                        if i >= before.len() {
                            assert(ids@[before.len() + (i - before.len())]@ == dependencies@[i
                                - before.len()]@);
                        }
                    }
                }
                assert(lists[k as int] == dependencies.deep_view());
                assert(lists.take(k + 1) =~= lists.take(k as int).push(lists[k as int]));
                lists.take(k as int).lemma_flatten_push(lists[k as int]);
            }
            k += 1;
        }
        assert(lists.take(k as int) =~= lists);
        ids
    }

    /// The candidates to add so that every requirement of the package is
    /// satisfied: for each requirement that neither the package itself, nor
    /// `builtin_mods`, nor a package selected by `current_mods` provides, the
    /// first of `mods` that declares it.
    ///
    /// `current_mods` selects positions of `mods`; so does the result.
    pub fn get_extra_dependencies(
        &self,
        mods: &Vec<&ModFile>,
        current_mods: &Selection,
        builtin_mods: &Vec<String>,
    ) -> (result: Result<Selection, BisectError>)
        ensures
            match result {
                Ok(extra) => {
                    &&& extra.capacity() == mods.len()
                    &&& Ok::<Set<int>, Failure>(extra@) == resolve(
                        self@,
                        mods.deep_view(),
                        current_mods@,
                        builtin_mods.deep_view(),
                    )
                },
                Err(error) => Err::<Set<int>, Failure>(error@) == resolve(
                    self@,
                    mods.deep_view(),
                    current_mods@,
                    builtin_mods.deep_view(),
                ),
            },
    {
        let required = self.get_required_ids();
        let mut extra = Selection::new(mods.len());
        let mut n: usize = 0;
        assert(providers_of_first(
            self@,
            mods.deep_view(),
            current_mods@,
            builtin_mods.deep_view(),
            0,
        ) =~= Set::<int>::empty());
        while n < required.len()
            invariant
                n <= required.len(),
                required.deep_view() == self@.required_ids(),
                extra.capacity() == mods.len(),
                extra@ == providers_of_first(
                    self@,
                    mods.deep_view(),
                    current_mods@,
                    builtin_mods.deep_view(),
                    n as int,
                ),
                forall|m: int|
                    0 <= m < n ==> !missing(
                        self@,
                        mods.deep_view(),
                        current_mods@,
                        builtin_mods.deep_view(),
                        #[trigger] self@.required_ids()[m],
                    ),
            decreases required.len() - n,
        {
            let id = required[n];
            assert(id@ == self@.required_ids()[n as int]) by {
                assert(required.deep_view()[n as int] == id@);
            }
            let ghost before = extra@;
            let mut provider: Option<usize> = None;
            if !(self.declares(id) || contains_id(builtin_mods, id) || selection_declares(
                mods,
                current_mods,
                id,
            )) {
                provider = find_provider(mods, id);
                match provider {
                    Some(position) => {
                        extra.insert(position);
                    },
                    None => {
                        assert(first_missing(
                            self@,
                            mods.deep_view(),
                            current_mods@,
                            builtin_mods.deep_view(),
                            n as int,
                        ));
                        return Err(BisectError::MissingDependency(id.clone()));
                    },
                }
            }
            assert(extra@ =~= providers_of_first(
                self@,
                mods.deep_view(),
                current_mods@,
                builtin_mods.deep_view(),
                n + 1,
            ));
            n += 1;
        }
        Ok(extra)
    }
}

} // verus!
