//! The search as a state machine: each step decides what is relocated and
//! whether the oracle is asked; carrying out the relocations and asking the
//! oracle is left to the caller.

use crate::closure::dependency_complete;
use crate::error::{BisectError, Failure};
use crate::model::{ModFile, Package};
use crate::round::{
    chosen_packages, conclude_round, half, lemma_half, parking, plan_round, relocations, reversal,
    survivors, Move, Round,
};
use crate::selection::lemma_ascending;
use vstd::arithmetic::power2::{lemma2_to64, lemma_pow2_unfold, pow2};
use vstd::prelude::*;
use vstd::set_lib::*;
use vstd::string::StringExecFns;

verus! {

/// The ids that count as satisfied wherever they are required: that of the
/// runtime platform and that of the loader.
pub open spec fn builtin_ids() -> Seq<Seq<char>> {
    seq!["minecraft"@, "neoforge"@]
}

/// The ids that are always considered satisfied.
pub fn builtin_mods() -> (ids: Vec<String>)
    ensures
        ids.deep_view() == builtin_ids(),
{
    let mut ids: Vec<String> = Vec::new();
    ids.push("minecraft".to_owned());
    ids.push("neoforge".to_owned());
    assert(ids.deep_view() =~= builtin_ids());
    ids
}

/// The name of the directory that holds the parked packages: that of the
/// active directory with `.disabled` behind it. The two are siblings.
pub fn parked_directory(active_directory: &str) -> (name: String)
    ensures
        name@ == active_directory@ + ".disabled"@,
{
    active_directory.to_owned().concat(".disabled")
}

/// Where a search stands.
#[derive(Debug)]
pub enum Search<'a> {
    /// A working set for which no round has been planned; all of it is active.
    Open(Vec<&'a ModFile>),
    /// A round over the working set is under way: its parked half is out, and
    /// the oracle is asked whether the symptom is still observed.
    Asked(Vec<&'a ModFile>, Round),
    /// The search is over: this one package remains.
    Found(&'a ModFile),
}

/// Mathematical model of a [`Search`]: the working set as a sequence of
/// packages, the halves of a round as sets of positions in it.
pub enum Stage {
    Open(Seq<Package>),
    Asked(Seq<Package>, Set<int>, Set<int>),
    Found(Package),
}

impl<'a> View for Search<'a> {
    type V = Stage;

    open spec fn view(&self) -> Stage {
        match self {
            Search::Open(working) => Stage::Open(working.deep_view()),
            Search::Asked(working, round) => Stage::Asked(
                working.deep_view(),
                round.kept@,
                round.parked@,
            ),
            Search::Found(culprit) => Stage::Found(culprit@),
        }
    }
}

impl<'a> Search<'a> {
    /// Whether the round of an asked search ranges over its working set.
    pub open spec fn well_formed(&self) -> bool {
        match self {
            Search::Asked(working, round) => round.fits(working.len() as int),
            _ => true,
        }
    }
}

/// The outcome of one step: the next state and the relocations to carry out
/// before anything else is done. The positions in `moves` refer to the working
/// set of the state that the step started from.
#[derive(Debug)]
pub struct Step<'a> {
    pub search: Search<'a>,
    pub moves: Vec<Move>,
}

/// One step of the search.
///
/// An open working set of one package is the result; any other open working
/// set is split, and its parked half moved out. An asked search goes on with
/// what the oracle's answer leaves, after the relocations that the answer
/// calls for. A finished search stays as it is.
pub open spec fn advance(
    stage: Stage,
    still_observed: bool,
    consistent: Seq<Seq<char>>,
    builtin: Seq<Seq<char>>,
) -> Result<(Stage, Seq<Move>), Failure> {
    match stage {
        Stage::Open(working) => if working.len() == 1 {
            Ok((Stage::Found(working[0]), Seq::empty()))
        } else {
            match half(working, consistent, builtin) {
                Err(failure) => Err(failure),
                Ok(kept) => {
                    let size = working.len() as int;
                    let parked = set_int_range(0, size).difference(kept);
                    Ok((Stage::Asked(working, kept, parked), parking(parked, size)))
                },
            }
        },
        Stage::Asked(working, kept, parked) => match survivors(
            working,
            kept,
            parked,
            still_observed,
            builtin,
        ) {
            Err(failure) => Err(failure),
            Ok(left) => Ok(
                (
                    Stage::Open(chosen_packages(working, left)),
                    reversal(working, kept, parked, still_observed, builtin),
                ),
            ),
        },
        Stage::Found(culprit) => Ok((Stage::Found(culprit), Seq::empty())),
    }
}

/// A copy of the list, holding the same packages in the same order.
fn same_packages<'a>(mods: &Vec<&'a ModFile>) -> (copy: Vec<&'a ModFile>)
    ensures
        copy@ == mods@,
{
    let mut copy: Vec<&'a ModFile> = Vec::new();
    let mut i: usize = 0;
    while i < mods.len()
        invariant
            i <= mods.len(),
            copy@ == mods@.take(i as int),
        decreases mods.len() - i,
    {
        copy.push(mods[i]);
        assert(copy@ =~= mods@.take(i + 1));
        i += 1;
    }
    assert(mods@.take(i as int) =~= mods@);
    copy
}

/// Takes the search one step further.
///
/// `still_observed` is the oracle's answer to the question that an asked
/// search has put; in the other states it is not read. Where the next state is
/// asked, the caller carries out `moves`, asks the oracle, and steps again
/// with the answer.
pub fn bisect<'a>(
    search: &Search<'a>,
    still_observed: bool,
    consistent_mods: &Vec<String>,
    builtin_mods: &Vec<String>,
) -> (result: Result<Step<'a>, BisectError>)
    requires
        search.well_formed(),
    ensures
        match result {
            Ok(step) => {
                &&& Ok::<(Stage, Seq<Move>), Failure>((step.search@, step.moves@)) == advance(
                    search@,
                    still_observed,
                    consistent_mods.deep_view(),
                    builtin_mods.deep_view(),
                )
                &&& step.search.well_formed()
                &&& match step.search {
                    Search::Asked(working, round) => {
                        &&& search matches Search::Open(before) && working@ == before@
                        &&& round.partitions(working.len() as int)
                        &&& dependency_complete(
                            working.deep_view(),
                            round.kept@,
                            builtin_mods.deep_view(),
                        )
                    },
                    Search::Open(_) => search is Asked,
                    Search::Found(culprit) => match search {
                        Search::Open(before) => before.len() == 1 && culprit == before[0],
                        Search::Asked(_, _) => false,
                        Search::Found(before) => culprit == before,
                    },
                }
            },
            Err(error) => Err::<(Stage, Seq<Move>), Failure>(error@) == advance(
                search@,
                still_observed,
                consistent_mods.deep_view(),
                builtin_mods.deep_view(),
            ),
        },
{
    match search {
        Search::Open(working) => {
            if working.len() == 1 {
                assert(working.deep_view()[0] == working[0]@);
                return Ok(Step { search: Search::Found(working[0]), moves: Vec::new() });
            }
            let round = match plan_round(working, consistent_mods, builtin_mods) {
                Ok(round) => round,
                Err(error) => {
                    return Err(error);
                },
            };
            let moves = relocations(&round.parked, true);
            let copy = same_packages(working);
            assert(copy.deep_view() =~= working.deep_view());
            Ok(Step { search: Search::Asked(copy, round), moves })
        },
        Search::Asked(working, round) => {
            match conclude_round(working, round, still_observed, builtin_mods) {
                Ok((next, moves)) => Ok(Step { search: Search::Open(next), moves }),
                Err(error) => Err(error),
            }
        },
        Search::Found(culprit) => Ok(Step { search: Search::Found(*culprit), moves: Vec::new() }),
    }
}

/// The stage that a scripted oracle leaves the search in: steps are taken
/// from `stage` on, each question being answered by the next of `answers`,
/// until the search is over, a step fails, or a question finds no answer left.
pub open spec fn play(
    stage: Stage,
    answers: Seq<bool>,
    consistent: Seq<Seq<char>>,
    builtin: Seq<Seq<char>>,
) -> Result<Stage, Failure>
    decreases answers.len(), (if stage is Open { 1nat } else { 0nat }),
{
    match stage {
        Stage::Found(_) => Ok(stage),
        Stage::Open(_) => match advance(stage, false, consistent, builtin) {
            Err(failure) => Err(failure),
            Ok((next, _)) => play(next, answers, consistent, builtin),
        },
        Stage::Asked(_, _, _) => if answers.len() == 0 {
            Ok(stage)
        } else {
            match advance(stage, answers[0], consistent, builtin) {
                Err(failure) => Err(failure),
                Ok((next, _)) => play(next, answers.drop_first(), consistent, builtin),
            }
        },
    }
}

/// Whether no round that `answers` leads through overshoots: each keeps
/// exactly half of its working set, rounded down, and where the oracle
/// answers no, the parked half needs nothing from the kept half.
pub open spec fn balanced(
    working: Seq<Package>,
    answers: Seq<bool>,
    consistent: Seq<Seq<char>>,
    builtin: Seq<Seq<char>>,
) -> bool
    decreases answers.len(),
{
    if working.len() == 1 || answers.len() == 0 {
        true
    } else {
        match half(working, consistent, builtin) {
            Err(_) => true,
            Ok(kept) => {
                let parked = set_int_range(0, working.len() as int).difference(kept);
                &&& kept.len() == working.len() / 2
                &&& match survivors(working, kept, parked, answers[0], builtin) {
                    Err(_) => true,
                    Ok(left) => {
                        &&& answers[0] || left == parked
                        &&& balanced(
                            chosen_packages(working, left),
                            answers.drop_first(),
                            consistent,
                            builtin,
                        )
                    },
                }
            },
        }
    }
}

/// The number of halvings, each rounded up, that bring `n` down to one: the
/// logarithm of `n` to base two, rounded up.
pub open spec fn ceil_log2(n: nat) -> nat
    decreases n,
{
    if n <= 1 {
        0
    } else {
        1 + ceil_log2(((n + 1) / 2) as nat)
    }
}

/// `ceil_log2(n)` is the least exponent whose power of two reaches `n`.
pub proof fn lemma_ceil_log2(n: nat)
    requires
        n >= 1,
    ensures
        pow2(ceil_log2(n)) >= n,
        n >= 2 ==> ceil_log2(n) >= 1 && pow2((ceil_log2(n) - 1) as nat) < n,
    decreases n,
{
    lemma2_to64();
    if n >= 2 {
        let m = ((n + 1) / 2) as nat;
        lemma_ceil_log2(m);
        lemma_pow2_unfold(ceil_log2(n));
        if m >= 2 {
            lemma_pow2_unfold(ceil_log2(m));
        }
    }
}

/// `ceil_log2` never decreases as its argument grows.
pub proof fn lemma_ceil_log2_monotonic(a: nat, b: nat)
    requires
        a <= b,
    ensures
        ceil_log2(a) <= ceil_log2(b),
    decreases b,
{
    if a > 1 {
        lemma_ceil_log2_monotonic(((a + 1) / 2) as nat, ((b + 1) / 2) as nat);
    }
}

/// The number of questions that the search puts to a scripted oracle from
/// `stage` on, a question that finds no answer left included.
pub open spec fn questions(
    stage: Stage,
    answers: Seq<bool>,
    consistent: Seq<Seq<char>>,
    builtin: Seq<Seq<char>>,
) -> nat
    decreases answers.len(), (if stage is Open { 1nat } else { 0nat }),
{
    match stage {
        Stage::Found(_) => 0,
        Stage::Open(_) => match advance(stage, false, consistent, builtin) {
            Err(_) => 0,
            Ok((next, _)) => questions(next, answers, consistent, builtin),
        },
        Stage::Asked(_, _, _) => if answers.len() == 0 {
            1
        } else {
            match advance(stage, answers[0], consistent, builtin) {
                Err(_) => 1,
                Ok((next, _)) => 1 + questions(next, answers.drop_first(), consistent, builtin),
            }
        },
    }
}

/// Termination bound: where no round overshoots, a search over `n >= 1`
/// packages puts at most `ceil_log2(n)` questions, whatever the answers are,
/// and is over, or has failed, once that many have been answered. This is
/// one question fewer than `ceil_log2(n) + 1`.
pub proof fn lemma_query_bound(
    working: Seq<Package>,
    answers: Seq<bool>,
    consistent: Seq<Seq<char>>,
    builtin: Seq<Seq<char>>,
)
    requires
        working.len() >= 1,
        balanced(working, answers, consistent, builtin),
    ensures
        questions(Stage::Open(working), answers, consistent, builtin) <= ceil_log2(working.len()),
        answers.len() >= ceil_log2(working.len()) ==> match play(
            Stage::Open(working),
            answers,
            consistent,
            builtin,
        ) {
            Ok(stage) => stage is Found,
            Err(_) => true,
        },
    decreases answers.len(),
{
    let size = working.len() as int;
    let all = set_int_range(0, size);
    let opened = Stage::Open(working);
    if working.len() == 1 {
        let found = Stage::Found(working[0]);
        assert(advance(opened, false, consistent, builtin) == Ok::<(Stage, Seq<Move>), Failure>(
            (found, Seq::empty()),
        ));
        assert(play(found, answers, consistent, builtin) == Ok::<Stage, Failure>(found));
        assert(questions(found, answers, consistent, builtin) == 0);
    } else if half(working, consistent, builtin) is Ok {
        let kept = half(working, consistent, builtin)->Ok_0;
        let parked = all.difference(kept);
        let asked = Stage::Asked(working, kept, parked);
        assert(advance(opened, false, consistent, builtin)->Ok_0.0 == asked);
        assert(play(opened, answers, consistent, builtin) == play(
            asked,
            answers,
            consistent,
            builtin,
        ));
        assert(questions(opened, answers, consistent, builtin) == questions(
            asked,
            answers,
            consistent,
            builtin,
        ));
        assert(ceil_log2(working.len()) >= 1);
        if answers.len() > 0 && survivors(working, kept, parked, answers[0], builtin) is Ok {
            let left = survivors(working, kept, parked, answers[0], builtin)->Ok_0;
            let next = chosen_packages(working, left);
            let rest = answers.drop_first();
            assert(advance(asked, answers[0], consistent, builtin)->Ok_0.0 == Stage::Open(next));
            assert(play(asked, answers, consistent, builtin) == play(
                Stage::Open(next),
                rest,
                consistent,
                builtin,
            ));
            assert(questions(asked, answers, consistent, builtin) == 1 + questions(
                Stage::Open(next),
                rest,
                consistent,
                builtin,
            ));
            lemma_half(working, consistent, builtin);
            lemma_int_range(0, size);
            lemma_set_difference_len(all, kept);
            assert(all.intersect(kept) =~= kept);
            assert(parked.len() == size - size / 2);
            lemma_ascending(left, size);
            assert(left.intersect(all) =~= left);
            assert(next.len() == left.len());
            assert(1 <= next.len() <= (size + 1) / 2);
            lemma_ceil_log2_monotonic(next.len(), ((size + 1) / 2) as nat);
            lemma_query_bound(next, rest, consistent, builtin);
        }
    }
}

/// Partition and closure of every round: where a step opens a round, the
/// round ranges over the working set that the step started from, its kept and
/// parked halves share nothing and together are that working set, at least
/// half of it is kept, and the kept half is dependency-complete.
pub proof fn lemma_round_is_sound(
    working: Seq<Package>,
    still_observed: bool,
    consistent: Seq<Seq<char>>,
    builtin: Seq<Seq<char>>,
)
    requires
        advance(Stage::Open(working), still_observed, consistent, builtin) is Ok,
        advance(Stage::Open(working), still_observed, consistent, builtin)->Ok_0.0 is Asked,
    ensures
        ({
            let next = advance(Stage::Open(working), still_observed, consistent, builtin)->Ok_0.0;
            let all = set_int_range(0, working.len() as int);
            &&& next->Asked_0 == working
            &&& next->Asked_1.union(next->Asked_2) == all
            &&& next->Asked_1.disjoint(next->Asked_2)
            &&& next->Asked_1.len() >= working.len() / 2
            &&& dependency_complete(working, next->Asked_1, builtin)
        }),
{
    let next = advance(Stage::Open(working), still_observed, consistent, builtin)->Ok_0.0;
    let all = set_int_range(0, working.len() as int);
    lemma_half(working, consistent, builtin);
    assert(next->Asked_1.union(next->Asked_2) =~= all);
}

} // verus!
