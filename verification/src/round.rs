//! Rounds of the search: which packages stay active, which are parked, and
//! what the next working set is once the oracle has answered.

use crate::closure::{
    close_dependencies, closure, dependency_complete, expand, lemma_close_over, lemma_expand_ok,
    resolve_selected,
};
use crate::dependency_resolver::{find_provider, is_provider, unprovided};
use crate::error::{BisectError, Failure};
use crate::model::{ModFile, Package};
use crate::selection::{ascending, lemma_ascending, Selection};
use vstd::prelude::*;
use vstd::set_lib::*;

verus! {

/// Whether the pinned id at `index` is the first that no package declares.
pub open spec fn first_unpinned(working: Seq<Package>, consistent: Seq<Seq<char>>, index: int) -> bool {
    &&& 0 <= index < consistent.len()
    &&& unprovided(working, consistent[index])
    &&& forall|before: int|
        0 <= before < index ==> !unprovided(working, #[trigger] consistent[before])
}

/// The providers of the first `count` pinned ids.
pub open spec fn providers_of_pins(
    working: Seq<Package>,
    consistent: Seq<Seq<char>>,
    count: int,
) -> Set<int> {
    Set::new(
        |j: int|
            exists|c: int|
                0 <= c < count && c < consistent.len() && is_provider(
                    working,
                    #[trigger] consistent[c],
                    j,
                ),
    )
}

/// The packages that a round starts from: the provider of each pinned id, or
/// the first pinned id that no package of the working set declares.
pub open spec fn seed(working: Seq<Package>, consistent: Seq<Seq<char>>) -> Result<
    Set<int>,
    Failure,
> {
    if exists|c: int| first_unpinned(working, consistent, c) {
        let c = choose|c: int| first_unpinned(working, consistent, c);
        Err(Failure::MissingConsistentMod(consistent[c]))
    } else {
        Ok(providers_of_pins(working, consistent, consistent.len() as int))
    }
}

/// Filling up to half: from position `next` on, each package that is not yet
/// kept is added together with its dependency closure, until half of the
/// working set is kept.
pub open spec fn fill(
    working: Seq<Package>,
    kept: Set<int>,
    builtin: Seq<Seq<char>>,
    next: int,
) -> Result<Set<int>, Failure>
    decreases working.len() - next,
{
    if kept.len() >= working.len() / 2 || next >= working.len() {
        Ok(kept)
    } else if kept.contains(next) {
        fill(working, kept, builtin, next + 1)
    } else {
        match closure(working, kept.insert(next), builtin) {
            Err(failure) => Err(failure),
            Ok(grown) => fill(working, grown, builtin, next + 1),
        }
    }
}

/// The kept subset of a round: the pinned packages, closed over their
/// dependencies, then filled up to half of the working set.
pub open spec fn half(
    working: Seq<Package>,
    consistent: Seq<Seq<char>>,
    builtin: Seq<Seq<char>>,
) -> Result<Set<int>, Failure> {
    match seed(working, consistent) {
        Err(failure) => Err(failure),
        Ok(pinned) => match closure(working, pinned, builtin) {
            Err(failure) => Err(failure),
            Ok(kept) => fill(working, kept, builtin, 0),
        },
    }
}

/// Filling keeps what is kept, stays within the working set, preserves
/// dependency-completeness, and ends with at least half of the working set.
pub proof fn lemma_fill(working: Seq<Package>, kept: Set<int>, builtin: Seq<Seq<char>>, next: int)
    requires
        0 <= next <= working.len(),
        kept.subset_of(set_int_range(0, working.len() as int)),
        set_int_range(0, next).subset_of(kept),
        dependency_complete(working, kept, builtin),
        fill(working, kept, builtin, next) is Ok,
    ensures
        kept.subset_of(fill(working, kept, builtin, next)->Ok_0),
        fill(working, kept, builtin, next)->Ok_0.subset_of(set_int_range(0, working.len() as int)),
        fill(working, kept, builtin, next)->Ok_0.finite(),
        fill(working, kept, builtin, next)->Ok_0.len() >= working.len() / 2,
        dependency_complete(working, fill(working, kept, builtin, next)->Ok_0, builtin),
    decreases working.len() - next,
{
    let all = set_int_range(0, working.len() as int);
    lemma_int_range(0, working.len() as int);
    lemma_int_range(0, next);
    lemma_len_subset(kept, all);
    lemma_len_subset(set_int_range(0, next), kept);
    if kept.len() >= working.len() / 2 || next >= working.len() {
    } else if kept.contains(next) {
        assert(set_int_range(0, next + 1).subset_of(kept));
        lemma_fill(working, kept, builtin, next + 1);
    } else {
        let started = kept.insert(next);
        lemma_len_subset(started, all);
        lemma_close_over(working, started, builtin, working.len());
        let grown = closure(working, started, builtin)->Ok_0;
        assert(set_int_range(0, next + 1).subset_of(grown));
        lemma_fill(working, grown, builtin, next + 1);
    }
}

/// The kept subset of a round lies within the working set, holds the provider
/// of every pinned id, holds at least half of the working set, and is
/// dependency-complete: no required edge leaves it but to a built-in id.
pub proof fn lemma_half(working: Seq<Package>, consistent: Seq<Seq<char>>, builtin: Seq<Seq<char>>)
    requires
        half(working, consistent, builtin) is Ok,
    ensures
        half(working, consistent, builtin)->Ok_0.subset_of(set_int_range(0, working.len() as int)),
        half(working, consistent, builtin)->Ok_0.finite(),
        half(working, consistent, builtin)->Ok_0.len() >= working.len() / 2,
        dependency_complete(working, half(working, consistent, builtin)->Ok_0, builtin),
        forall|c: int, j: int|
            0 <= c < consistent.len() && #[trigger] is_provider(working, consistent[c], j) ==> half(
                working,
                consistent,
                builtin,
            )->Ok_0.contains(j),
{
    let all = set_int_range(0, working.len() as int);
    let pinned = seed(working, consistent)->Ok_0;
    lemma_int_range(0, working.len() as int);
    assert(pinned.subset_of(all));
    lemma_len_subset(pinned, all);
    lemma_close_over(working, pinned, builtin, working.len());
    let closed = closure(working, pinned, builtin)->Ok_0;
    assert(set_int_range(0, 0).subset_of(closed));
    lemma_fill(working, closed, builtin, 0);
}

/// The packages that stay active in a round over `mod_files`.
///
/// The provider of each of `consistent_mods` is kept, with all that it needs;
/// then packages are added in the order of `mod_files`, each with all that it
/// needs, until at least half of `mod_files` is kept. The result selects
/// positions of `mod_files`.
pub fn take_half(
    mod_files: &Vec<&ModFile>,
    consistent_mods: &Vec<String>,
    builtin_mods: &Vec<String>,
) -> (result: Result<Selection, BisectError>)
    ensures
        match result {
            Ok(kept) => {
                &&& kept.capacity() == mod_files.len()
                &&& Ok::<Set<int>, Failure>(kept@) == half(
                    mod_files.deep_view(),
                    consistent_mods.deep_view(),
                    builtin_mods.deep_view(),
                )
                &&& kept@.len() >= mod_files.len() / 2
                &&& dependency_complete(mod_files.deep_view(), kept@, builtin_mods.deep_view())
                &&& forall|c: int, j: int|
                    0 <= c < consistent_mods.len() && #[trigger] is_provider(
                        mod_files.deep_view(),
                        consistent_mods.deep_view()[c],
                        j,
                    ) ==> kept@.contains(j)
            },
            Err(error) => Err::<Set<int>, Failure>(error@) == half(
                mod_files.deep_view(),
                consistent_mods.deep_view(),
                builtin_mods.deep_view(),
            ),
        },
{
    let ghost working = mod_files.deep_view();
    let ghost consistent = consistent_mods.deep_view();
    let ghost builtin = builtin_mods.deep_view();
    let mut pinned = Selection::new(mod_files.len());
    let mut c: usize = 0;
    assert(providers_of_pins(working, consistent, 0) =~= Set::<int>::empty());
    while c < consistent_mods.len()
        invariant
            c <= consistent_mods.len(),
            working == mod_files.deep_view(),
            consistent == consistent_mods.deep_view(),
            pinned.capacity() == mod_files.len(),
            pinned@ == providers_of_pins(working, consistent, c as int),
            forall|before: int| 0 <= before < c ==> !unprovided(working, #[trigger] consistent[before]),
        decreases consistent_mods.len() - c,
    {
        let id = &consistent_mods[c];
        assert(id@ == consistent[c as int]);
        match find_provider(mod_files, id) {
            Some(position) => {
                pinned.insert(position);
            },
            None => {
                assert(first_unpinned(working, consistent, c as int));
                return Err(BisectError::MissingConsistentMod(id.clone()));
            },
        }
        assert(pinned@ =~= providers_of_pins(working, consistent, c + 1));
        c += 1;
    }
    assert(!exists|c: int| first_unpinned(working, consistent, c));
    let mut kept = match close_dependencies(mod_files, pinned, builtin_mods) {
        Ok(closed) => closed,
        Err(error) => {
            return Err(error);
        },
    };
    let mut next: usize = 0;
    while next < mod_files.len() && kept.len() < mod_files.len() / 2
        invariant
            next <= mod_files.len(),
            working == mod_files.deep_view(),
            builtin == builtin_mods.deep_view(),
            consistent == consistent_mods.deep_view(),
            kept.capacity() == mod_files.len(),
            half(working, consistent, builtin) == fill(working, kept@, builtin, next as int),
        decreases mod_files.len() - next,
    {
        if !kept.contains(next) {
            kept.insert(next);
            kept = match close_dependencies(mod_files, kept, builtin_mods) {
                Ok(closed) => closed,
                Err(error) => {
                    return Err(error);
                },
            };
        }
        next += 1;
    }
    proof {
        lemma_half(working, consistent, builtin);
    }
    Ok(kept)
}

/// One relocation of a package file, named by the package's position in the
/// working set of the state that the step started from.
#[derive(Clone, Copy, Debug, PartialEq, Eq, Structural)]
pub enum Move {
    /// From the active location to the parked location.
    Park(usize),
    /// From the parked location back to the active location.
    Restore(usize),
}

/// The members of `chosen` below `size` in ascending order, each to be parked.
pub open spec fn parking(chosen: Set<int>, size: int) -> Seq<Move> {
    ascending(chosen, size).map_values(|p: int| Move::Park(p as usize))
}

/// The members of `chosen` below `size` in ascending order, each to be restored.
pub open spec fn restoring(chosen: Set<int>, size: int) -> Seq<Move> {
    ascending(chosen, size).map_values(|p: int| Move::Restore(p as usize))
}

/// The packages of `working` at the positions in `chosen`, in the order of `working`.
pub open spec fn chosen_packages(working: Seq<Package>, chosen: Set<int>) -> Seq<Package> {
    ascending(chosen, working.len() as int).map_values(|p: int| working[p])
}

/// The two halves of a round, as positions of its working set.
#[derive(Debug)]
pub struct Round {
    /// The packages that stay active.
    pub kept: Selection,
    /// The packages that are moved out.
    pub parked: Selection,
}

impl Round {
    /// Whether the round ranges over a working set of `size` packages.
    pub open spec fn fits(&self, size: int) -> bool {
        self.kept.capacity() == size && self.parked.capacity() == size
    }

    /// Whether kept and parked together are the whole working set and share nothing.
    pub open spec fn partitions(&self, size: int) -> bool {
        &&& self.fits(size)
        &&& self.kept@.union(self.parked@) == set_int_range(0, size)
        &&& self.kept@.disjoint(self.parked@)
    }
}

/// What is left to search once the oracle has answered: the kept half where
/// the symptom is still observed; otherwise the parked half together with
/// what its packages need from the kept half.
pub open spec fn survivors(
    working: Seq<Package>,
    kept: Set<int>,
    parked: Set<int>,
    still_observed: bool,
    builtin: Seq<Seq<char>>,
) -> Result<Set<int>, Failure> {
    if still_observed {
        Ok(kept)
    } else {
        match expand(working, parked, builtin) {
            Err(failure) => Err(failure),
            Ok(extra) => Ok(parked.union(extra)),
        }
    }
}

/// The relocations that follow the oracle's answer: none where the symptom is
/// still observed; otherwise the parked half comes back, the kept half goes
/// out, and what the parked half needs from the kept half comes back.
pub open spec fn reversal(
    working: Seq<Package>,
    kept: Set<int>,
    parked: Set<int>,
    still_observed: bool,
    builtin: Seq<Seq<char>>,
) -> Seq<Move> {
    let size = working.len() as int;
    if still_observed {
        Seq::empty()
    } else {
        match expand(working, parked, builtin) {
            Err(_) => Seq::empty(),
            Ok(extra) => restoring(parked, size) + parking(kept, size) + restoring(extra, size),
        }
    }
}

/// The active positions once one relocation has been carried out.
pub open spec fn moved(active: Set<int>, relocation: Move) -> Set<int> {
    match relocation {
        Move::Park(position) => active.remove(position as int),
        Move::Restore(position) => active.insert(position as int),
    }
}

/// The active positions once the relocations have been carried out in order.
pub open spec fn relocated(active: Set<int>, moves: Seq<Move>) -> Set<int>
    decreases moves.len(),
{
    if moves.len() == 0 {
        active
    } else {
        moved(relocated(active, moves.drop_last()), moves.last())
    }
}

/// Relocations carried out one list after the other are those of the joined list.
pub proof fn lemma_relocated_in_turn(active: Set<int>, first: Seq<Move>, second: Seq<Move>)
    ensures
        relocated(active, first + second) == relocated(relocated(active, first), second),
    decreases second.len(),
{
    if second.len() == 0 {
        assert(first + second =~= first);
    } else {
        assert((first + second).drop_last() =~= first + second.drop_last());
        assert((first + second).last() == second.last());
        lemma_relocated_in_turn(active, first, second.drop_last());
    }
}

/// Parking the members of `chosen` leaves active what was active and is not
/// among them; restoring them makes them active as well.
pub proof fn lemma_relocated_all(active: Set<int>, chosen: Set<int>, size: int)
    requires
        0 <= size <= usize::MAX,
    ensures
        relocated(active, parking(chosen, size)) == active.difference(
            chosen.intersect(set_int_range(0, size)),
        ),
        relocated(active, restoring(chosen, size)) == active.union(
            chosen.intersect(set_int_range(0, size)),
        ),
    decreases size,
{
    let parks = parking(chosen, size);
    let restores = restoring(chosen, size);
    if size == 0 {
        assert(relocated(active, parks) =~= active.difference(
            chosen.intersect(set_int_range(0, size)),
        ));
        assert(relocated(active, restores) =~= active.union(
            chosen.intersect(set_int_range(0, size)),
        ));
    } else {
        lemma_relocated_all(active, chosen, size - 1);
        let below = chosen.intersect(set_int_range(0, size - 1));
        if chosen.contains(size - 1) {
            assert(parks.drop_last() =~= parking(chosen, size - 1));
            assert(restores.drop_last() =~= restoring(chosen, size - 1));
            assert(parks.last() == Move::Park((size - 1) as usize));
            assert(restores.last() == Move::Restore((size - 1) as usize));
            assert(relocated(active, parks) =~= active.difference(
                chosen.intersect(set_int_range(0, size)),
            ));
            assert(relocated(active, restores) =~= active.union(
                chosen.intersect(set_int_range(0, size)),
            ));
        } else {
            assert(parks =~= parking(chosen, size - 1));
            assert(restores =~= restoring(chosen, size - 1));
            assert(chosen.intersect(set_int_range(0, size)) =~= below);
        }
    }
}

/// With the whole working set active, parking the parked half of a round
/// leaves exactly its kept half active.
pub proof fn lemma_parking_leaves_kept(kept: Set<int>, parked: Set<int>, size: int)
    requires
        0 <= size <= usize::MAX,
        kept.union(parked) == set_int_range(0, size),
        kept.disjoint(parked),
    ensures
        relocated(set_int_range(0, size), parking(parked, size)) == kept,
{
    let all = set_int_range(0, size);
    lemma_relocated_all(all, parked, size);
    assert(all.difference(parked.intersect(all)) =~= kept);
}

/// With the kept half of a round active, the relocations that follow the
/// oracle's answer leave exactly the next working set active.
pub proof fn lemma_reversal_leaves_survivors(
    working: Seq<Package>,
    kept: Set<int>,
    parked: Set<int>,
    still_observed: bool,
    builtin: Seq<Seq<char>>,
)
    requires
        working.len() <= usize::MAX,
        kept.union(parked) == set_int_range(0, working.len() as int),
        kept.disjoint(parked),
        survivors(working, kept, parked, still_observed, builtin) is Ok,
    ensures
        relocated(kept, reversal(working, kept, parked, still_observed, builtin)) == survivors(
            working,
            kept,
            parked,
            still_observed,
            builtin,
        )->Ok_0,
{
    if !still_observed {
        let size = working.len() as int;
        let all = set_int_range(0, size);
        let extra = expand(working, parked, builtin)->Ok_0;
        let back = restoring(parked, size);
        let out = parking(kept, size);
        let again = restoring(extra, size);
        lemma_expand_ok(working, parked, builtin);
        lemma_relocated_in_turn(kept, back + out, again);
        lemma_relocated_in_turn(kept, back, out);
        lemma_relocated_all(kept, parked, size);
        lemma_relocated_all(relocated(kept, back), kept, size);
        lemma_relocated_all(relocated(kept, back + out), extra, size);
        assert(relocated(kept, back) =~= all);
        assert(relocated(kept, back + out) =~= parked);
        assert(relocated(kept, back + out + again) =~= parked.union(extra));
    }
}

/// The packages of `mods` at the positions in `chosen`, in the order of `mods`.
pub fn select<'a>(mods: &Vec<&'a ModFile>, chosen: &Selection) -> (picked: Vec<&'a ModFile>)
    requires
        chosen.capacity() == mods.len(),
    ensures
        picked@ == ascending(chosen@, mods.len() as int).map_values(|p: int| mods@[p]),
        picked.deep_view() == chosen_packages(mods.deep_view(), chosen@),
{
    let positions = chosen.positions();
    let ghost listed = ascending(chosen@, mods.len() as int);
    proof {
        lemma_ascending(chosen@, mods.len() as int);
    }
    let mut picked: Vec<&'a ModFile> = Vec::new();
    let mut a: usize = 0;
    while a < positions.len()
        invariant
            a <= positions.len(),
            positions@.map_values(|p: usize| p as int) == listed,
            forall|b: int| 0 <= b < listed.len() ==> 0 <= #[trigger] listed[b] < mods.len(),
            picked@.len() == a,
            forall|b: int| 0 <= b < a ==> picked@[b] == mods@[listed[b]],
        decreases positions.len() - a,
    {
        assert(positions@.map_values(|p: usize| p as int)[a as int] == positions@[a as int]);
        picked.push(mods[positions[a]]);
        a += 1;
    }
    assert(positions@.map_values(|p: usize| p as int).len() == positions@.len());
    assert(picked@ =~= listed.map_values(|p: int| mods@[p]));
    assert(picked.deep_view() =~= chosen_packages(mods.deep_view(), chosen@));
    picked
}

/// One relocation for each position in `chosen`, in ascending order: to the
/// parked location where `park` holds, back from it otherwise.
pub fn relocations(chosen: &Selection, park: bool) -> (moves: Vec<Move>)
    ensures
        moves@ == if park {
            parking(chosen@, chosen.capacity() as int)
        } else {
            restoring(chosen@, chosen.capacity() as int)
        },
{
    let positions = chosen.positions();
    let ghost listed = ascending(chosen@, chosen.capacity() as int);
    proof {
        lemma_ascending(chosen@, chosen.capacity() as int);
    }
    let mut moves: Vec<Move> = Vec::new();
    let mut a: usize = 0;
    while a < positions.len()
        invariant
            a <= positions.len(),
            positions@.map_values(|p: usize| p as int) == listed,
            moves@.len() == a,
            forall|b: int|
                0 <= b < a ==> #[trigger] moves@[b] == if park {
                    Move::Park(listed[b] as usize)
                } else {
                    Move::Restore(listed[b] as usize)
                },
        decreases positions.len() - a,
    {
        assert(positions@.map_values(|p: usize| p as int)[a as int] == positions@[a as int]);
        if park {
            moves.push(Move::Park(positions[a]));
        } else {
            moves.push(Move::Restore(positions[a]));
        }
        a += 1;
    }
    assert(positions@.map_values(|p: usize| p as int).len() == positions@.len());
    if park {
        assert(moves@ =~= parking(chosen@, chosen.capacity() as int));
    } else {
        assert(moves@ =~= restoring(chosen@, chosen.capacity() as int));
    }
    moves
}

/// Splits the working set into the half that stays active and the half that
/// is parked.
pub fn plan_round(
    mod_files: &Vec<&ModFile>,
    consistent_mods: &Vec<String>,
    builtin_mods: &Vec<String>,
) -> (result: Result<Round, BisectError>)
    ensures
        match result {
            Ok(round) => {
                &&& Ok::<Set<int>, Failure>(round.kept@) == half(
                    mod_files.deep_view(),
                    consistent_mods.deep_view(),
                    builtin_mods.deep_view(),
                )
                &&& round.parked@ == set_int_range(0, mod_files.len() as int).difference(
                    round.kept@,
                )
                &&& round.partitions(mod_files.len() as int)
                &&& round.kept@.len() >= mod_files.len() / 2
                &&& dependency_complete(
                    mod_files.deep_view(),
                    round.kept@,
                    builtin_mods.deep_view(),
                )
                &&& forall|c: int, j: int|
                    0 <= c < consistent_mods.len() && #[trigger] is_provider(
                        mod_files.deep_view(),
                        consistent_mods.deep_view()[c],
                        j,
                    ) ==> round.kept@.contains(j)
            },
            Err(error) => Err::<Set<int>, Failure>(error@) == half(
                mod_files.deep_view(),
                consistent_mods.deep_view(),
                builtin_mods.deep_view(),
            ),
        },
{
    let kept = match take_half(mod_files, consistent_mods, builtin_mods) {
        Ok(kept) => kept,
        Err(error) => {
            return Err(error);
        },
    };
    let parked = kept.complement();
    proof {
        kept.lemma_bounded();
        let all = set_int_range(0, mod_files.len() as int);
        assert(kept@.union(parked@) =~= all);
    }
    Ok(Round { kept, parked })
}

/// The next working set, and the relocations that lead to it, once the oracle
/// has said whether the symptom is still observed with only `round.kept`
/// active.
pub fn conclude_round<'a>(
    mod_files: &Vec<&'a ModFile>,
    round: &Round,
    still_observed: bool,
    builtin_mods: &Vec<String>,
) -> (result: Result<(Vec<&'a ModFile>, Vec<Move>), BisectError>)
    requires
        round.fits(mod_files.len() as int),
    ensures
        match result {
            Ok((next, moves)) => {
                &&& survivors(
                    mod_files.deep_view(),
                    round.kept@,
                    round.parked@,
                    still_observed,
                    builtin_mods.deep_view(),
                ) matches Ok(left) && next@ == ascending(left, mod_files.len() as int).map_values(
                    |p: int| mod_files@[p],
                ) && next.deep_view() == chosen_packages(mod_files.deep_view(), left)
                &&& moves@ == reversal(
                    mod_files.deep_view(),
                    round.kept@,
                    round.parked@,
                    still_observed,
                    builtin_mods.deep_view(),
                )
            },
            Err(error) => Err::<Set<int>, Failure>(error@) == survivors(
                mod_files.deep_view(),
                round.kept@,
                round.parked@,
                still_observed,
                builtin_mods.deep_view(),
            ),
        },
{
    if still_observed {
        return Ok((select(mod_files, &round.kept), Vec::new()));
    }
    let extra = match resolve_selected(mod_files, &round.parked, builtin_mods) {
        Ok(extra) => extra,
        Err(error) => {
            return Err(error);
        },
    };
    let mut moves = relocations(&round.parked, false);
    let mut parks = relocations(&round.kept, true);
    let mut restores = relocations(&extra, false);
    moves.append(&mut parks);
    moves.append(&mut restores);
    let mut left = Selection::new(mod_files.len());
    left.merge(&round.parked);
    left.merge(&extra);
    assert(left@ =~= round.parked@.union(extra@));
    Ok((select(mod_files, &left), moves))
}

} // verus!
