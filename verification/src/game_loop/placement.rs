//! What generation may place, and what it did place.
//!
//! A rule that is applied to a chunk has one candidate on each lattice
//! position of the chunk. The candidates of a region come in the order in
//! which generation visits them. Of the candidates of a rule that is certain
//! every one is placed, of those of a rule that is impossible none, and of
//! the others those whose random trial succeeded. `admits` is that relation
//! between the candidates and what was placed, whatever the trials gave.

use vstd::prelude::*;
use crate::assets::GenerationSpec;
use crate::geometry::{IAabb2, IVec2};

verus! {

/// Side length of a chunk, in lattice positions.
pub const CHUNK_SIZE: i32 = 32;

/// The number of lattice positions of a chunk.
pub const CHUNK_POSITIONS: usize = 1024;

/// A kind of content on a lattice position.
#[derive(Clone, Copy, Debug, PartialEq, Eq, Structural)]
pub struct Placement {
    pub spec_id: usize,
    pub position: IVec2,
}

/// A lattice position that a rule is applied to.
pub struct Candidate {
    pub rule: GenerationSpec,
    pub position: IVec2,
}

impl Candidate {
    /// What is placed where the candidate is taken.
    pub open spec fn placement(self) -> Placement {
        Placement { spec_id: self.rule.placed_spec_id(), position: self.position }
    }
}

/// The `i`-th lattice position of a chunk: the positions go by `x`, then by
/// `y`.
pub open spec fn lattice_point(chunk: IVec2, i: int) -> IVec2 {
    IVec2 {
        x: (chunk.x * CHUNK_SIZE + i / (CHUNK_SIZE as int)) as i32,
        y: (chunk.y * CHUNK_SIZE + i % (CHUNK_SIZE as int)) as i32,
    }
}

/// The candidates of one rule on one chunk, one on each lattice position.
pub open spec fn lattice_candidates(rule: GenerationSpec, chunk: IVec2) -> Seq<Candidate> {
    Seq::new(CHUNK_POSITIONS as nat, |i: int| Candidate { rule, position: lattice_point(chunk, i) })
}

/// The candidates of one rule on one chunk for the storage of blocks
/// (`blocks`) or for that of base tiles (`!blocks`).
pub open spec fn rule_candidates(rule: GenerationSpec, chunk: IVec2, blocks: bool) -> Seq<
    Candidate,
> {
    if rule.places_blocks() == blocks {
        lattice_candidates(rule, chunk)
    } else {
        Seq::empty()
    }
}

/// The candidates of the first `n` rules on one chunk.
pub open spec fn chunk_candidates(
    rules: Seq<GenerationSpec>,
    chunk: IVec2,
    blocks: bool,
    n: nat,
) -> Seq<Candidate>
    decreases n,
{
    if n == 0 {
        Seq::empty()
    } else {
        chunk_candidates(rules, chunk, blocks, (n - 1) as nat) + rule_candidates(
            rules[n - 1],
            chunk,
            blocks,
        )
    }
}

/// The candidates of the first `m` chunks of the column `x` of a region,
/// without the chunks that are flagged.
pub open spec fn column_candidates(
    flags: Set<IVec2>,
    rules: Seq<GenerationSpec>,
    region: IAabb2,
    x: int,
    blocks: bool,
    m: nat,
) -> Seq<Candidate>
    decreases m,
{
    if m == 0 {
        Seq::empty()
    } else {
        let before = column_candidates(flags, rules, region, x, blocks, (m - 1) as nat);
        let chunk = IVec2 { x: x as i32, y: (region.min.y + m - 1) as i32 };
        if flags.contains(chunk) {
            before
        } else {
            before + chunk_candidates(rules, chunk, blocks, rules.len())
        }
    }
}

/// The candidates of the first `n` columns of a region.
pub open spec fn region_candidates(
    flags: Set<IVec2>,
    rules: Seq<GenerationSpec>,
    region: IAabb2,
    blocks: bool,
    n: nat,
) -> Seq<Candidate>
    decreases n,
{
    if n == 0 {
        Seq::empty()
    } else {
        region_candidates(flags, rules, region, blocks, (n - 1) as nat) + column_candidates(
            flags,
            rules,
            region,
            region.min.x + n - 1,
            blocks,
            region.height(),
        )
    }
}

/// Whether `placed` can come of `candidates`: it holds, in their order, the
/// placements of some of the candidates, among them all those of a certain
/// rule and none of an impossible rule.
pub open spec fn admits(candidates: Seq<Candidate>, placed: Seq<Placement>) -> bool
    decreases candidates.len(),
{
    if candidates.len() == 0 {
        placed.len() == 0
    } else {
        let last = candidates.last();
        ||| !last.rule.is_certain() && admits(candidates.drop_last(), placed)
        ||| !last.rule.is_impossible() && placed.len() > 0 && placed.last() == last.placement()
            && admits(candidates.drop_last(), placed.drop_last())
    }
}

/// Whether `after` is `before` with, behind it, something that can come of
/// `candidates`.
pub open spec fn extends_by(
    before: Seq<Placement>,
    after: Seq<Placement>,
    candidates: Seq<Candidate>,
) -> bool {
    &&& before.len() <= after.len()
    &&& after.take(before.len() as int) == before
    &&& admits(candidates, after.skip(before.len() as int))
}

/// A beginning of a beginning of a sequence is a beginning of the sequence.
pub proof fn lemma_prefix_of_prefix<T>(first: Seq<T>, second: Seq<T>, third: Seq<T>)
    requires
        first.is_prefix_of(second),
        second.is_prefix_of(third),
    ensures
        first.is_prefix_of(third),
{
    assert(first =~= third.subrange(0, first.len() as int)) by {
        assert forall|i: int| 0 <= i < first.len() implies first[i] == third[i] by {
            assert(first[i] == second.subrange(0, first.len() as int)[i]);
            assert(second[i] == third.subrange(0, second.len() as int)[i]);
        }
    }
}

/// A beginning of a sequence is a beginning of the sequence with one more
/// item behind it.
pub proof fn lemma_prefix_of_pushed<T>(first: Seq<T>, second: Seq<T>, item: T)
    requires
        first.is_prefix_of(second),
    ensures
        first.is_prefix_of(second.push(item)),
{
    assert(second.is_prefix_of(second.push(item))) by {
        assert(second =~= second.push(item).subrange(0, second.len() as int));
    }
    lemma_prefix_of_prefix(first, second, second.push(item));
}

/// What can come of two runs of candidates, one behind the other, can come
/// of the two runs joined.
pub proof fn lemma_admits_joined(
    first: Seq<Candidate>,
    placed_first: Seq<Placement>,
    second: Seq<Candidate>,
    placed_second: Seq<Placement>,
)
    requires
        admits(first, placed_first),
        admits(second, placed_second),
    ensures
        admits(first + second, placed_first + placed_second),
    decreases second.len(),
{
    if second.len() == 0 {
        assert(first + second =~= first);
        assert(placed_first + placed_second =~= placed_first);
    } else {
        let last = second.last();
        assert((first + second).drop_last() =~= first + second.drop_last());
        assert((first + second).last() == last);
        if !last.rule.is_certain() && admits(second.drop_last(), placed_second) {
            lemma_admits_joined(first, placed_first, second.drop_last(), placed_second);
        } else {
            lemma_admits_joined(first, placed_first, second.drop_last(), placed_second.drop_last());
            assert((placed_first + placed_second).drop_last() =~= placed_first
                + placed_second.drop_last());
        }
    }
}

/// Two extensions, one after the other, are one extension by the joined
/// candidates.
pub proof fn lemma_extends_joined(
    before: Seq<Placement>,
    between: Seq<Placement>,
    after: Seq<Placement>,
    first: Seq<Candidate>,
    second: Seq<Candidate>,
)
    requires
        extends_by(before, between, first),
        extends_by(between, after, second),
    ensures
        extends_by(before, after, first + second),
{
    assert(after.take(before.len() as int) =~= between.take(before.len() as int));
    lemma_admits_joined(
        first,
        between.skip(before.len() as int),
        second,
        after.skip(between.len() as int),
    );
    assert(after.skip(before.len() as int) =~= between.skip(before.len() as int) + after.skip(
        between.len() as int,
    ));
}

/// Nothing extends by no candidates.
pub proof fn lemma_extends_by_nothing(before: Seq<Placement>)
    ensures
        extends_by(before, before, Seq::empty()),
{
    assert(before.take(before.len() as int) =~= before);
}

/// The law that candidates of certain rules are all placed: each once, in
/// their order.
pub proof fn lemma_certain_candidates_are_placed(
    candidates: Seq<Candidate>,
    placed: Seq<Placement>,
)
    requires
        admits(candidates, placed),
        forall|i: int| 0 <= i < candidates.len() ==> (#[trigger] candidates[i]).rule.is_certain(),
    ensures
        placed == candidates.map_values(|candidate: Candidate| candidate.placement()),
    decreases candidates.len(),
{
    let all = candidates.map_values(|candidate: Candidate| candidate.placement());
    if candidates.len() == 0 {
        assert(placed =~= all);
    } else {
        assert(candidates.last() == candidates[candidates.len() - 1]);
        assert forall|i: int| 0 <= i < candidates.drop_last().len() implies (
        #[trigger] candidates.drop_last()[i]).rule.is_certain() by {
            assert(candidates.drop_last()[i] == candidates[i]);
        }
        lemma_certain_candidates_are_placed(candidates.drop_last(), placed.drop_last());
        lemma_placed_is_bounded(candidates, placed);
        lemma_placed_is_bounded(candidates.drop_last(), placed.drop_last());
        assert(placed.len() == candidates.len());
        assert forall|i: int| 0 <= i < placed.len() implies placed[i] == all[i] by {
            if i < placed.len() - 1 {
                assert(placed[i] == placed.drop_last()[i]);
                assert(candidates.drop_last()[i] == candidates[i]);
            }
        }
        assert(placed =~= all);
    }
}

/// The law that candidates of impossible rules are never placed.
pub proof fn lemma_impossible_candidates_are_not_placed(
    candidates: Seq<Candidate>,
    placed: Seq<Placement>,
)
    requires
        admits(candidates, placed),
        forall|i: int|
            0 <= i < candidates.len() ==> (#[trigger] candidates[i]).rule.is_impossible(),
    ensures
        placed == Seq::<Placement>::empty(),
    decreases candidates.len(),
{
    if candidates.len() == 0 {
        assert(placed =~= Seq::<Placement>::empty());
    } else {
        assert(candidates.last() == candidates[candidates.len() - 1]);
        assert forall|i: int| 0 <= i < candidates.drop_last().len() implies (
        #[trigger] candidates.drop_last()[i]).rule.is_impossible() by {
            assert(candidates.drop_last()[i] == candidates[i]);
        }
        lemma_impossible_candidates_are_not_placed(candidates.drop_last(), placed);
    }
}

/// No more is placed than there are candidates.
pub proof fn lemma_placed_is_bounded(candidates: Seq<Candidate>, placed: Seq<Placement>)
    requires
        admits(candidates, placed),
    ensures
        placed.len() <= candidates.len(),
    decreases candidates.len(),
{
    if candidates.len() > 0 {
        let last = candidates.last();
        if !last.rule.is_certain() && admits(candidates.drop_last(), placed) {
            lemma_placed_is_bounded(candidates.drop_last(), placed);
        } else {
            lemma_placed_is_bounded(candidates.drop_last(), placed.drop_last());
        }
    }
}

/// Whether `picks` names, by increasing index, candidates that `placed` holds
/// the placements of: all that are certain among them and none that is
/// impossible.
pub open spec fn selects(
    candidates: Seq<Candidate>,
    picks: Seq<int>,
    placed: Seq<Placement>,
) -> bool {
    &&& picks.len() == placed.len()
    &&& forall|j: int|
        0 <= j < picks.len() ==> {
            &&& 0 <= #[trigger] picks[j] < candidates.len()
            &&& placed[j] == candidates[picks[j]].placement()
            &&& !candidates[picks[j]].rule.is_impossible()
        }
    &&& forall|j: int, k: int|
        0 <= j < k < picks.len() ==> #[trigger] picks[j] < #[trigger] picks[k]
    &&& forall|i: int|
        0 <= i < candidates.len() && (#[trigger] candidates[i]).rule.is_certain()
            ==> picks.contains(i)
}

/// The law of what is placed: it is a selection of the candidates, in their
/// order, with every candidate of a certain rule and without any of an
/// impossible rule.
pub proof fn lemma_placed_is_a_selection(candidates: Seq<Candidate>, placed: Seq<Placement>)
    requires
        admits(candidates, placed),
    ensures
        exists|picks: Seq<int>| selects(candidates, picks, placed),
    decreases candidates.len(),
{
    if candidates.len() == 0 {
        assert(selects(candidates, Seq::<int>::empty(), placed));
    } else {
        let rest = candidates.drop_last();
        let last = candidates.last();
        let n = rest.len() as int;
        if !last.rule.is_certain() && admits(rest, placed) {
            lemma_placed_is_a_selection(rest, placed);
            let picks = choose|picks: Seq<int>| selects(rest, picks, placed);
            assert forall|j: int| 0 <= j < picks.len() implies {
                &&& 0 <= #[trigger] picks[j] < candidates.len()
                &&& placed[j] == candidates[picks[j]].placement()
                &&& !candidates[picks[j]].rule.is_impossible()
            } by {
                assert(rest[picks[j]] == candidates[picks[j]]);
            }
            assert forall|i: int|
                0 <= i < candidates.len() && (
                #[trigger] candidates[i]).rule.is_certain() implies picks.contains(i) by {
                assert(rest[i] == candidates[i]);
            }
            assert(selects(candidates, picks, placed));
        } else {
            lemma_placed_is_a_selection(rest, placed.drop_last());
            let before = choose|picks: Seq<int>| selects(rest, picks, placed.drop_last());
            let picks = before.push(n);
            assert forall|j: int| 0 <= j < picks.len() implies {
                &&& 0 <= #[trigger] picks[j] < candidates.len()
                &&& placed[j] == candidates[picks[j]].placement()
                &&& !candidates[picks[j]].rule.is_impossible()
            } by {
                if j < before.len() {
                    assert(picks[j] == before[j]);
                    assert(rest[before[j]] == candidates[before[j]]);
                    assert(placed.drop_last()[j] == placed[j]);
                }
            }
            assert forall|j: int, k: int| 0 <= j < k < picks.len() implies #[trigger] picks[j]
                < #[trigger] picks[k] by {
                assert(picks[j] == before[j]);
                if k < before.len() {
                    assert(picks[k] == before[k]);
                }
            }
            assert forall|i: int|
                0 <= i < candidates.len() && (
                #[trigger] candidates[i]).rule.is_certain() implies picks.contains(i) by {
                if i < n {
                    assert(rest[i] == candidates[i]);
                    let j = choose|j: int| 0 <= j < before.len() && before[j] == i;
                    assert(picks[j] == i);
                } else {
                    assert(picks[before.len() as int] == i);
                }
            }
            assert(selects(candidates, picks, placed));
        }
    }
}

/// The law that the candidate of a certain rule is placed: where it stands
/// among the candidates whatever else is there, its placement is among what
/// was placed.
pub proof fn lemma_certain_candidate_is_placed(
    candidates: Seq<Candidate>,
    placed: Seq<Placement>,
    i: int,
)
    requires
        admits(candidates, placed),
        0 <= i < candidates.len(),
        candidates[i].rule.is_certain(),
    ensures
        placed.contains(candidates[i].placement()),
{
    lemma_placed_is_a_selection(candidates, placed);
    let picks = choose|picks: Seq<int>| selects(candidates, picks, placed);
    assert(picks.contains(i));
    let j = choose|j: int| 0 <= j < picks.len() && picks[j] == i;
    assert(placed[j] == candidates[i].placement());
}

} // verus!
