//! Growing a selection until every requirement of its packages is satisfied.

use crate::dependency_resolver::{
    first_missing, is_provider, missing, providers_of_first, resolve, satisfied, unprovided,
};
use crate::error::{BisectError, Failure};
use crate::model::{ModFile, Package};
use crate::selection::Selection;
use vstd::prelude::*;
use vstd::set_lib::*;

verus! {

/// Whether every requirement of every selected package is declared by that
/// package, built in, or declared by a selected package.
pub open spec fn dependency_complete(
    working: Seq<Package>,
    kept: Set<int>,
    builtin: Seq<Seq<char>>,
) -> bool {
    forall|p: int, n: int|
        0 <= p < working.len() && kept.contains(p) && 0 <= n < working[p].required_ids().len()
            ==> satisfied(
            working[p],
            working,
            kept,
            builtin,
            #[trigger] working[p].required_ids()[n],
        )
}

/// Whether `position` holds the first selected package whose resolution fails.
pub open spec fn first_failing(
    working: Seq<Package>,
    kept: Set<int>,
    builtin: Seq<Seq<char>>,
    position: int,
) -> bool {
    &&& 0 <= position < working.len()
    &&& kept.contains(position)
    &&& resolve(working[position], working, kept, builtin) is Err
    &&& forall|q: int|
        0 <= q < position && kept.contains(q) ==> #[trigger] resolve(
            working[q],
            working,
            kept,
            builtin,
        ) is Ok
}

/// The packages that the selected packages below `bound` ask to add.
pub open spec fn additions_below(
    working: Seq<Package>,
    kept: Set<int>,
    builtin: Seq<Seq<char>>,
    bound: int,
) -> Set<int> {
    Set::new(
        |j: int|
            exists|p: int|
                0 <= p < bound && p < working.len() && kept.contains(p) && match #[trigger] resolve(
                    working[p],
                    working,
                    kept,
                    builtin,
                ) {
                    Ok(extra) => extra.contains(j),
                    Err(_) => false,
                },
    )
}

/// One pass over the selection: every selected package is resolved against
/// the selection as it stands. Yields the packages to add, or the failure of
/// the first selected package that cannot be resolved.
pub open spec fn expand(working: Seq<Package>, kept: Set<int>, builtin: Seq<Seq<char>>) -> Result<
    Set<int>,
    Failure,
> {
    if exists|p: int| first_failing(working, kept, builtin, p) {
        let p = choose|p: int| first_failing(working, kept, builtin, p);
        Err(resolve(working[p], working, kept, builtin)->Err_0)
    } else {
        Ok(additions_below(working, kept, builtin, working.len() as int))
    }
}

/// Passes repeated until one adds nothing, at most `passes` times over.
pub open spec fn close_over(
    working: Seq<Package>,
    kept: Set<int>,
    builtin: Seq<Seq<char>>,
    passes: nat,
) -> Result<Set<int>, Failure>
    decreases passes,
{
    match expand(working, kept, builtin) {
        Err(failure) => Err(failure),
        Ok(added) => if added.len() == 0 || passes == 0 {
            Ok(kept)
        } else {
            close_over(working, kept.union(added), builtin, (passes - 1) as nat)
        },
    }
}

/// The dependency closure of `kept` within `working`: passes are repeated
/// until no package is added. Every productive pass adds a package, so as
/// many passes as there are packages always suffice.
pub open spec fn closure(working: Seq<Package>, kept: Set<int>, builtin: Seq<Seq<char>>) -> Result<
    Set<int>,
    Failure,
> {
    close_over(working, kept, builtin, working.len())
}

/// A candidate that declares `id` has a first such candidate at or before it.
pub proof fn lemma_provider_exists(candidates: Seq<Package>, id: Seq<char>, position: int)
    requires
        0 <= position < candidates.len(),
        candidates[position].declares(id),
    ensures
        exists|first: int| 0 <= first <= position && is_provider(candidates, id, first),
    decreases position,
{
    if exists|earlier: int| 0 <= earlier < position && (#[trigger] candidates[earlier]).declares(id) {
        let earlier = choose|earlier: int|
            0 <= earlier < position && (#[trigger] candidates[earlier]).declares(id);
        lemma_provider_exists(candidates, id, earlier);
    } else {
        assert(is_provider(candidates, id, position));
    }
}

/// A missing requirement has a first missing requirement at or before it.
pub proof fn lemma_first_missing_exists(
    package: Package,
    candidates: Seq<Package>,
    selected: Set<int>,
    builtin: Seq<Seq<char>>,
    index: int,
)
    requires
        0 <= index < package.required_ids().len(),
        missing(package, candidates, selected, builtin, package.required_ids()[index]),
    ensures
        exists|first: int|
            0 <= first <= index && first_missing(package, candidates, selected, builtin, first),
    decreases index,
{
    let required = package.required_ids();
    if exists|before: int|
        0 <= before < index && missing(
            package,
            candidates,
            selected,
            builtin,
            #[trigger] required[before],
        ) {
        let before = choose|before: int|
            0 <= before < index && missing(
                package,
                candidates,
                selected,
                builtin,
                #[trigger] required[before],
            );
        lemma_first_missing_exists(package, candidates, selected, builtin, before);
    } else {
        assert(first_missing(package, candidates, selected, builtin, index));
    }
}

/// A resolution that succeeds adds only candidates that are not selected, and
/// leaves no requirement without a selected or added package that declares it.
pub proof fn lemma_resolve_ok(
    package: Package,
    candidates: Seq<Package>,
    selected: Set<int>,
    builtin: Seq<Seq<char>>,
)
    requires
        resolve(package, candidates, selected, builtin) is Ok,
    ensures
        forall|j: int| #[trigger]
            resolve(package, candidates, selected, builtin)->Ok_0.contains(j) ==> 0 <= j
                < candidates.len() && !selected.contains(j),
        forall|n: int|
            0 <= n < package.required_ids().len() ==> satisfied(
                package,
                candidates,
                selected,
                builtin,
                #[trigger] package.required_ids()[n],
            ) || exists|j: int|
                resolve(package, candidates, selected, builtin)->Ok_0.contains(j) && is_provider(
                    candidates,
                    package.required_ids()[n],
                    j,
                ),
{
    let required = package.required_ids();
    let extra = resolve(package, candidates, selected, builtin)->Ok_0;
    assert(extra == providers_of_first(
        package,
        candidates,
        selected,
        builtin,
        required.len() as int,
    ));
    assert forall|n: int| 0 <= n < required.len() implies satisfied(
        package,
        candidates,
        selected,
        builtin,
        #[trigger] required[n],
    ) || exists|j: int| extra.contains(j) && is_provider(candidates, required[n], j) by {
        if !satisfied(package, candidates, selected, builtin, required[n]) {
            if unprovided(candidates, required[n]) {
                lemma_first_missing_exists(package, candidates, selected, builtin, n);
                assert(false);
            }
            let j = choose|j: int|
                0 <= j < candidates.len() && (#[trigger] candidates[j]).declares(required[n]);
            lemma_provider_exists(candidates, required[n], j);
            let first = choose|first: int|
                0 <= first <= j && is_provider(candidates, required[n], first);
            assert(extra.contains(first));
        }
    }
}

/// The first selected package whose resolution fails exists whenever one fails.
pub proof fn lemma_first_failing_exists(
    working: Seq<Package>,
    kept: Set<int>,
    builtin: Seq<Seq<char>>,
    position: int,
)
    requires
        0 <= position < working.len(),
        kept.contains(position),
        resolve(working[position], working, kept, builtin) is Err,
    ensures
        exists|first: int| 0 <= first <= position && first_failing(working, kept, builtin, first),
    decreases position,
{
    if exists|q: int|
        0 <= q < position && kept.contains(q) && #[trigger] resolve(
            working[q],
            working,
            kept,
            builtin,
        ) is Err {
        let q = choose|q: int|
            0 <= q < position && kept.contains(q) && #[trigger] resolve(
                working[q],
                working,
                kept,
                builtin,
            ) is Err;
        lemma_first_failing_exists(working, kept, builtin, q);
    } else {
        assert(first_failing(working, kept, builtin, position));
    }
}

/// A pass that succeeds adds only unselected positions of the working set;
/// where it adds nothing, the selection is dependency-complete.
pub proof fn lemma_expand_ok(working: Seq<Package>, kept: Set<int>, builtin: Seq<Seq<char>>)
    requires
        expand(working, kept, builtin) is Ok,
    ensures
        expand(working, kept, builtin)->Ok_0.finite(),
        expand(working, kept, builtin)->Ok_0.subset_of(set_int_range(0, working.len() as int)),
        expand(working, kept, builtin)->Ok_0.disjoint(kept),
        expand(working, kept, builtin)->Ok_0.len() == 0 ==> dependency_complete(
            working,
            kept,
            builtin,
        ),
{
    let added = expand(working, kept, builtin)->Ok_0;
    let all = set_int_range(0, working.len() as int);
    assert forall|p: int| 0 <= p < working.len() && kept.contains(p) implies #[trigger] resolve(
        working[p],
        working,
        kept,
        builtin,
    ) is Ok by {
        if resolve(working[p], working, kept, builtin) is Err {
            lemma_first_failing_exists(working, kept, builtin, p);
        }
    }
    assert forall|j: int| added.contains(j) implies all.contains(j) && !kept.contains(j) by {
        let p = choose|p: int|
            0 <= p < working.len() && kept.contains(p) && match #[trigger] resolve(
                working[p],
                working,
                kept,
                builtin,
            ) {
                Ok(extra) => extra.contains(j),
                Err(_) => false,
            };
        lemma_resolve_ok(working[p], working, kept, builtin);
    }
    lemma_int_range(0, working.len() as int);
    lemma_len_subset(added, all);
    if added.len() == 0 {
        assert forall|p: int, n: int|
            0 <= p < working.len() && kept.contains(p) && 0 <= n
                < working[p].required_ids().len() implies satisfied(
            working[p],
            working,
            kept,
            builtin,
            #[trigger] working[p].required_ids()[n],
        ) by {
            lemma_resolve_ok(working[p], working, kept, builtin);
            let extra = resolve(working[p], working, kept, builtin)->Ok_0;
            if !satisfied(working[p], working, kept, builtin, working[p].required_ids()[n]) {
                let j = choose|j: int|
                    extra.contains(j) && is_provider(working, working[p].required_ids()[n], j);
                assert(added.contains(j));
                assert(added.len() > 0);
            }
        }
    }
}

/// A closure that succeeds holds the selection it started from, lies within
/// the working set, and is dependency-complete.
pub proof fn lemma_close_over(
    working: Seq<Package>,
    kept: Set<int>,
    builtin: Seq<Seq<char>>,
    passes: nat,
)
    requires
        kept.subset_of(set_int_range(0, working.len() as int)),
        passes + kept.len() >= working.len(),
        close_over(working, kept, builtin, passes) is Ok,
    ensures
        kept.subset_of(close_over(working, kept, builtin, passes)->Ok_0),
        close_over(working, kept, builtin, passes)->Ok_0.subset_of(
            set_int_range(0, working.len() as int),
        ),
        close_over(working, kept, builtin, passes)->Ok_0.finite(),
        dependency_complete(working, close_over(working, kept, builtin, passes)->Ok_0, builtin),
    decreases passes,
{
    let all = set_int_range(0, working.len() as int);
    let added = expand(working, kept, builtin)->Ok_0;
    lemma_int_range(0, working.len() as int);
    lemma_len_subset(kept, all);
    lemma_expand_ok(working, kept, builtin);
    if added.len() == 0 {
    } else {
        lemma_growth(working, kept, builtin);
        lemma_close_over(working, kept.union(added), builtin, (passes - 1) as nat);
    }
}

/// A pass that adds something makes the selection larger, within the working set.
pub proof fn lemma_growth(working: Seq<Package>, kept: Set<int>, builtin: Seq<Seq<char>>)
    requires
        kept.subset_of(set_int_range(0, working.len() as int)),
        expand(working, kept, builtin) is Ok,
        expand(working, kept, builtin)->Ok_0.len() != 0,
    ensures
        kept.finite(),
        kept.len() < working.len(),
        kept.union(expand(working, kept, builtin)->Ok_0).subset_of(
            set_int_range(0, working.len() as int),
        ),
        kept.union(expand(working, kept, builtin)->Ok_0).len() > kept.len(),
        kept.union(expand(working, kept, builtin)->Ok_0).len() <= working.len(),
{
    let all = set_int_range(0, working.len() as int);
    let added = expand(working, kept, builtin)->Ok_0;
    lemma_int_range(0, working.len() as int);
    lemma_len_subset(kept, all);
    lemma_expand_ok(working, kept, builtin);
    lemma_set_disjoint_lens(kept, added);
    assert(kept.disjoint(added));
    assert(kept.union(added).len() == kept.len() + added.len());
    lemma_len_subset(kept.union(added), all);
}

/// One pass over `selected`: what its packages ask to add, each resolved
/// against `selected` as it stands.
pub fn resolve_selected(mods: &Vec<&ModFile>, selected: &Selection, builtin_mods: &Vec<String>) -> (result:
    Result<Selection, BisectError>)
    ensures
        match result {
            Ok(added) => {
                &&& added.capacity() == mods.len()
                &&& Ok::<Set<int>, Failure>(added@) == expand(
                    mods.deep_view(),
                    selected@,
                    builtin_mods.deep_view(),
                )
            },
            Err(error) => Err::<Set<int>, Failure>(error@) == expand(
                mods.deep_view(),
                selected@,
                builtin_mods.deep_view(),
            ),
        },
{
    let ghost working = mods.deep_view();
    let ghost builtin = builtin_mods.deep_view();
    let mut added = Selection::new(mods.len());
    let mut p: usize = 0;
    assert(additions_below(working, selected@, builtin, 0) =~= Set::<int>::empty());
    while p < mods.len()
        invariant
            p <= mods.len(),
            working == mods.deep_view(),
            builtin == builtin_mods.deep_view(),
            added.capacity() == mods.len(),
            added@ == additions_below(working, selected@, builtin, p as int),
            forall|q: int|
                0 <= q < p && selected@.contains(q) ==> #[trigger] resolve(
                    working[q],
                    working,
                    selected@,
                    builtin,
                ) is Ok,
        decreases mods.len() - p,
    {
        if selected.contains(p) {
            assert(working[p as int] == mods@[p as int]@);
            match mods[p].get_extra_dependencies(mods, selected, builtin_mods) {
                Ok(extra) => {
                    added.merge(&extra);
                },
                Err(error) => {
                    assert(first_failing(working, selected@, builtin, p as int));
                    return Err(error);
                },
            }
        }
        assert(added@ =~= additions_below(working, selected@, builtin, p + 1));
        p += 1;
    }
    assert(!exists|q: int| first_failing(working, selected@, builtin, q));
    Ok(added)
}

/// The dependency closure of `selected` within `mods`.
///
/// Each selected package is resolved against the selection; what the
/// resolutions ask for is added, and so on until nothing more is asked for.
pub fn close_dependencies(
    mods: &Vec<&ModFile>,
    selected: Selection,
    builtin_mods: &Vec<String>,
) -> (result: Result<Selection, BisectError>)
    requires
        selected.capacity() == mods.len(),
    ensures
        match result {
            Ok(closed) => {
                &&& closed.capacity() == mods.len()
                &&& Ok::<Set<int>, Failure>(closed@) == closure(
                    mods.deep_view(),
                    selected@,
                    builtin_mods.deep_view(),
                )
                &&& selected@.subset_of(closed@)
                &&& dependency_complete(mods.deep_view(), closed@, builtin_mods.deep_view())
            },
            Err(error) => Err::<Set<int>, Failure>(error@) == closure(
                mods.deep_view(),
                selected@,
                builtin_mods.deep_view(),
            ),
        },
{
    let ghost working = mods.deep_view();
    let ghost builtin = builtin_mods.deep_view();
    let ghost mut passes: nat = mods.len() as nat;
    let mut kept = selected;
    proof {
        kept.lemma_bounded();
        assert(kept@.subset_of(set_int_range(0, working.len() as int)));
    }
    loop
        invariant
            working == mods.deep_view(),
            builtin == builtin_mods.deep_view(),
            kept.capacity() == mods.len(),
            kept@.subset_of(set_int_range(0, working.len() as int)),
            passes + kept@.len() >= working.len(),
            selected@.subset_of(kept@),
            closure(working, selected@, builtin) == close_over(working, kept@, builtin, passes),
        decreases working.len() - kept@.len(),
    {
        let added = match resolve_selected(mods, &kept, builtin_mods) {
            Ok(added) => added,
            Err(error) => {
                return Err(error);
            },
        };
        if added.len() == 0 {
            proof {
                lemma_close_over(working, kept@, builtin, passes);
            }
            return Ok(kept);
        }
        proof {
            lemma_growth(working, kept@, builtin);
            passes = (passes - 1) as nat;
        }
        kept.merge(&added);
    }
}

} // verus!
