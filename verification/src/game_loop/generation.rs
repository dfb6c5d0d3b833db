//! The world generator: content for each chunk, once.

use vstd::prelude::*;
use ahash::RandomState;
use std::collections::HashSet;
use std::rc::Rc;
use crate::assets::{Assets, GenerationSpec};
use crate::game_loop::base::{Base, BaseStorage};
use crate::game_loop::block::{Block, BlockStorage};
use crate::game_loop::entity::EntitySystem;
use crate::game_loop::placement::{
    chunk_candidates, column_candidates, extends_by, lattice_candidates, lattice_point,
    lemma_certain_candidate_is_placed, lemma_certain_candidates_are_placed,
    lemma_extends_by_nothing, lemma_extends_joined,
    lemma_impossible_candidates_are_not_placed, lemma_prefix_of_prefix, lemma_prefix_of_pushed,
    region_candidates, rule_candidates, Candidate,
    Placement, CHUNK_POSITIONS, CHUNK_SIZE,
};
use crate::geometry::{IAabb2, IVec2};
use crate::hashing::{
    flags_contain, flags_insert, lemma_point_key_is_injective, point_key, point_key_of,
};
use crate::random::random_bits;

verus! {

/// The generator: the catalog of rules, and the chunks that were generated.
pub struct GenerationSystem {
    assets: Rc<Assets>,
    grid_flags: HashSet<u64, RandomState>,
}

/// Whether the lattice positions of a chunk are in the range of `i32`.
pub open spec fn chunk_in_reach(chunk: IVec2) -> bool {
    &&& -0x400_0000 <= chunk.x < 0x400_0000
    &&& -0x400_0000 <= chunk.y < 0x400_0000
}

/// Applies one rule to one chunk: a trial on each lattice position where the
/// rule asks for one, and a tile or block where it is certain or the trial
/// succeeded.
fn apply_rule(
    rule: GenerationSpec,
    chunk: IVec2,
    base_storage: &mut BaseStorage,
    block_storage: &mut BlockStorage,
)
    requires
        chunk_in_reach(chunk),
    ensures
        extends_by(
            old(base_storage).placements(),
            final(base_storage).placements(),
            rule_candidates(rule, chunk, false),
        ),
        extends_by(
            old(block_storage).placements(),
            final(block_storage).placements(),
            rule_candidates(rule, chunk, true),
        ),
        old(base_storage)@.is_prefix_of(final(base_storage)@),
        old(block_storage)@.is_prefix_of(final(block_storage)@),
{
    let ghost bases = base_storage.placements();
    let ghost blocks = block_storage.placements();
    let ghost base_view = base_storage@;
    let ghost block_view = block_storage@;
    let ghost candidates = lattice_candidates(rule, chunk);
    proof {
        lemma_extends_by_nothing(bases);
        lemma_extends_by_nothing(blocks);
        assert(candidates.take(0) =~= Seq::<Candidate>::empty());
    }
    match rule {
        GenerationSpec::FillBase { base_spec_id } => {
            let mut i: usize = 0;
            while i < CHUNK_POSITIONS
                invariant
                    chunk_in_reach(chunk),
                    rule == (GenerationSpec::FillBase { base_spec_id }),
                    candidates == lattice_candidates(rule, chunk),
                    i <= CHUNK_POSITIONS,
                    extends_by(bases, base_storage.placements(), candidates.take(i as int)),
                    block_storage.placements() == blocks,
                    base_view.is_prefix_of(base_storage@),
                    block_view.is_prefix_of(block_storage@),
                decreases CHUNK_POSITIONS - i,
            {
                let position = lattice_position(chunk, i);
                let ghost before = base_storage.placements();
                let ghost view_before = base_storage@;
                base_storage.insert(Base::new(base_spec_id, position));
                proof {
                    lemma_prefix_of_pushed(
                        base_view,
                        view_before,
                        Base { spec_id: base_spec_id, position },
                    );
                    lemma_extends_by_one(
                        bases,
                        before,
                        base_storage.placements(),
                        candidates,
                        i as int,
                    );
                }
                i = i + 1;
            }
        },
        GenerationSpec::RandomBase { base_spec_id, probability } => {
            let mut i: usize = 0;
            while i < CHUNK_POSITIONS
                invariant
                    chunk_in_reach(chunk),
                    rule == (GenerationSpec::RandomBase { base_spec_id, probability }),
                    candidates == lattice_candidates(rule, chunk),
                    i <= CHUNK_POSITIONS,
                    extends_by(bases, base_storage.placements(), candidates.take(i as int)),
                    block_storage.placements() == blocks,
                    base_view.is_prefix_of(base_storage@),
                    block_view.is_prefix_of(block_storage@),
                decreases CHUNK_POSITIONS - i,
            {
                let position = lattice_position(chunk, i);
                let ghost before = base_storage.placements();
                let ghost view_before = base_storage@;
                if probability.trial(random_bits()) {
                    base_storage.insert(Base::new(base_spec_id, position));
                    proof {
                        lemma_prefix_of_pushed(
                            base_view,
                            view_before,
                            Base { spec_id: base_spec_id, position },
                        );
                    }
                }
                proof {
                    lemma_extends_by_one(
                        bases,
                        before,
                        base_storage.placements(),
                        candidates,
                        i as int,
                    );
                }
                i = i + 1;
            }
        },
        GenerationSpec::RandomBlock { block_spec_id, probability } => {
            let mut i: usize = 0;
            while i < CHUNK_POSITIONS
                invariant
                    chunk_in_reach(chunk),
                    rule == (GenerationSpec::RandomBlock { block_spec_id, probability }),
                    candidates == lattice_candidates(rule, chunk),
                    i <= CHUNK_POSITIONS,
                    extends_by(blocks, block_storage.placements(), candidates.take(i as int)),
                    base_storage.placements() == bases,
                    base_view.is_prefix_of(base_storage@),
                    block_view.is_prefix_of(block_storage@),
                decreases CHUNK_POSITIONS - i,
            {
                let position = lattice_position(chunk, i);
                let ghost before = block_storage.placements();
                let ghost view_before = block_storage@;
                if probability.trial(random_bits()) {
                    let z_random = Block::jitter_of(random_bits());
                    block_storage.insert(Block::new(block_spec_id, position, z_random));
                    proof {
                        lemma_prefix_of_pushed(
                            block_view,
                            view_before,
                            Block { spec_id: block_spec_id, position, z_random },
                        );
                    }
                }
                proof {
                    lemma_extends_by_one(
                        blocks,
                        before,
                        block_storage.placements(),
                        candidates,
                        i as int,
                    );
                }
                i = i + 1;
            }
        },
    }
    proof {
        assert(candidates.take(CHUNK_POSITIONS as int) =~= candidates);
    }
}

/// The `i`-th lattice position of a chunk.
fn lattice_position(chunk: IVec2, i: usize) -> (position: IVec2)
    requires
        chunk_in_reach(chunk),
        i < CHUNK_POSITIONS,
    ensures
        position == lattice_point(chunk, i as int),
{
    let column = (i / 32) as i32;
    let row = (i % 32) as i32;
    IVec2 { x: chunk.x * CHUNK_SIZE + column, y: chunk.y * CHUNK_SIZE + row }
}

/// One more candidate was dealt with: it was placed, unless it is
/// impossible, or it was passed over, unless it is certain.
proof fn lemma_extends_by_one(
    start: Seq<Placement>,
    before: Seq<Placement>,
    after: Seq<Placement>,
    candidates: Seq<Candidate>,
    i: int,
)
    requires
        0 <= i < candidates.len(),
        extends_by(start, before, candidates.take(i)),
        ({
            ||| !candidates[i].rule.is_certain() && after == before
            ||| !candidates[i].rule.is_impossible() && after == before.push(
                candidates[i].placement(),
            )
        }),
    ensures
        extends_by(start, after, candidates.take(i + 1)),
{
    let taken = candidates.take(i + 1);
    assert(taken.drop_last() =~= candidates.take(i));
    assert(taken.last() == candidates[i]);
    let from = start.len() as int;
    if after == before {
    } else {
        assert(after.take(from) =~= before.take(from));
        assert(after.skip(from).drop_last() =~= before.skip(from));
        assert(after.skip(from).last() == candidates[i].placement());
    }
}

impl GenerationSystem {
    /// Side length of a chunk, in lattice positions.
    pub const GRID_SIZE: i32 = CHUNK_SIZE;

    /// The margin of chunks that is generated around a requested region.
    pub const EXTEND_GRID: i32 = 2;

    /// The generation rules, in the order of the catalog.
    pub closed spec fn rules(&self) -> Seq<GenerationSpec> {
        self.assets.generation_specs@
    }

    /// The chunks that were generated.
    pub closed spec fn visited(&self) -> Set<IVec2> {
        Set::new(|chunk: IVec2| self.grid_flags@.contains(point_key(chunk)))
    }

    /// The chunks that a request for `rect` covers: those that `rect`
    /// touches, and a margin of `EXTEND_GRID` chunks around them.
    pub open spec fn region(rect: IAabb2) -> IAabb2 {
        rect.grid_space(Self::GRID_SIZE).extended(Self::EXTEND_GRID)
    }

    /// Whether every lattice position of every chunk that a request for
    /// `rect` covers is in the range of `i32`.
    pub open spec fn in_reach(rect: IAabb2) -> bool {
        &&& i32::MIN + 64 <= rect.min.x
        &&& i32::MIN + 64 <= rect.min.y
        &&& rect.max.x <= i32::MAX - 64
        &&& rect.max.y <= i32::MAX - 64
    }

    /// The candidates of a request for `rect` where the chunks `flags` were
    /// generated before: for each other chunk of the region, by `x` and then
    /// by `y`, and for each rule in the order of the catalog, the lattice
    /// positions of the chunk.
    pub open spec fn candidates(
        flags: Set<IVec2>,
        rules: Seq<GenerationSpec>,
        rect: IAabb2,
        blocks: bool,
    ) -> Seq<Candidate> {
        region_candidates(flags, rules, Self::region(rect), blocks, Self::region(rect).width())
    }

    /// A generator that has generated nothing.
    pub fn new(assets: Rc<Assets>) -> (system: GenerationSystem)
        ensures
            system.rules() == assets.generation_specs@,
            system.visited() == Set::<IVec2>::empty(),
    {
        let system = GenerationSystem { assets, grid_flags: HashSet::default() };
        assert(system.visited() =~= Set::<IVec2>::empty());
        system
    }

    /// Applies every rule, in the order of the catalog, to one chunk.
    fn generate_chunk(
        &self,
        chunk: IVec2,
        base_storage: &mut BaseStorage,
        block_storage: &mut BlockStorage,
    )
        requires
            chunk_in_reach(chunk),
        ensures
            extends_by(
                old(base_storage).placements(),
                final(base_storage).placements(),
                chunk_candidates(self.rules(), chunk, false, self.rules().len()),
            ),
            extends_by(
                old(block_storage).placements(),
                final(block_storage).placements(),
                chunk_candidates(self.rules(), chunk, true, self.rules().len()),
            ),
            old(base_storage)@.is_prefix_of(final(base_storage)@),
            old(block_storage)@.is_prefix_of(final(block_storage)@),
    {
        let ghost bases = base_storage.placements();
        let ghost blocks = block_storage.placements();
        let ghost base_view = base_storage@;
        let ghost block_view = block_storage@;
        proof {
            lemma_extends_by_nothing(bases);
            lemma_extends_by_nothing(blocks);
        }
        let count = self.assets.generation_specs.len();
        let mut n: usize = 0;
        while n < count
            invariant
                chunk_in_reach(chunk),
                count == self.rules().len(),
                n <= count,
                extends_by(
                    bases,
                    base_storage.placements(),
                    chunk_candidates(self.rules(), chunk, false, n as nat),
                ),
                extends_by(
                    blocks,
                    block_storage.placements(),
                    chunk_candidates(self.rules(), chunk, true, n as nat),
                ),
                base_view.is_prefix_of(base_storage@),
                block_view.is_prefix_of(block_storage@),
            decreases count - n,
        {
            let rule = self.assets.generation_specs[n];
            let ghost bases_before = base_storage.placements();
            let ghost blocks_before = block_storage.placements();
            let ghost base_mid = base_storage@;
            let ghost block_mid = block_storage@;
            apply_rule(rule, chunk, base_storage, block_storage);
            proof {
                lemma_prefix_of_prefix(base_view, base_mid, base_storage@);
                lemma_prefix_of_prefix(block_view, block_mid, block_storage@);
                lemma_extends_joined(
                    bases,
                    bases_before,
                    base_storage.placements(),
                    chunk_candidates(self.rules(), chunk, false, n as nat),
                    rule_candidates(rule, chunk, false),
                );
                lemma_extends_joined(
                    blocks,
                    blocks_before,
                    block_storage.placements(),
                    chunk_candidates(self.rules(), chunk, true, n as nat),
                    rule_candidates(rule, chunk, true),
                );
            }
            n = n + 1;
        }
    }

    /// Generates one column of chunks of the region, passing over the
    /// chunks that were generated before.
    fn generate_column(
        &self,
        region: IAabb2,
        x: i32,
        base_storage: &mut BaseStorage,
        block_storage: &mut BlockStorage,
    )
        requires
            -0x400_0000 <= x < 0x400_0000,
            -0x400_0000 <= region.min.y,
            region.max.y < 0x400_0000,
        ensures
            extends_by(
                old(base_storage).placements(),
                final(base_storage).placements(),
                column_candidates(
                    self.visited(),
                    self.rules(),
                    region,
                    x as int,
                    false,
                    region.height(),
                ),
            ),
            extends_by(
                old(block_storage).placements(),
                final(block_storage).placements(),
                column_candidates(
                    self.visited(),
                    self.rules(),
                    region,
                    x as int,
                    true,
                    region.height(),
                ),
            ),
            old(base_storage)@.is_prefix_of(final(base_storage)@),
            old(block_storage)@.is_prefix_of(final(block_storage)@),
    {
        let ghost bases = base_storage.placements();
        let ghost blocks = block_storage.placements();
        let ghost base_view = base_storage@;
        let ghost block_view = block_storage@;
        proof {
            lemma_extends_by_nothing(bases);
            lemma_extends_by_nothing(blocks);
        }
        let mut y: i64 = region.min.y as i64;
        while y <= region.max.y as i64
            invariant
                -0x400_0000 <= x < 0x400_0000,
                -0x400_0000 <= region.min.y <= y,
                region.max.y < 0x400_0000,
                y <= region.max.y + 1 || y == region.min.y,
                extends_by(
                    bases,
                    base_storage.placements(),
                    column_candidates(
                        self.visited(),
                        self.rules(),
                        region,
                        x as int,
                        false,
                        (y - region.min.y) as nat,
                    ),
                ),
                extends_by(
                    blocks,
                    block_storage.placements(),
                    column_candidates(
                        self.visited(),
                        self.rules(),
                        region,
                        x as int,
                        true,
                        (y - region.min.y) as nat,
                    ),
                ),
                base_view.is_prefix_of(base_storage@),
                block_view.is_prefix_of(block_storage@),
            decreases region.max.y - y + 1,
        {
            let chunk = IVec2 { x, y: y as i32 };
            if !flags_contain(&self.grid_flags, point_key_of(chunk)) {
                let ghost bases_before = base_storage.placements();
                let ghost blocks_before = block_storage.placements();
                let ghost base_mid = base_storage@;
                let ghost block_mid = block_storage@;
                self.generate_chunk(chunk, base_storage, block_storage);
                proof {
                    lemma_prefix_of_prefix(base_view, base_mid, base_storage@);
                    lemma_prefix_of_prefix(block_view, block_mid, block_storage@);
                    lemma_extends_joined(
                        bases,
                        bases_before,
                        base_storage.placements(),
                        column_candidates(
                            self.visited(),
                            self.rules(),
                            region,
                            x as int,
                            false,
                            (y - region.min.y) as nat,
                        ),
                        chunk_candidates(self.rules(), chunk, false, self.rules().len()),
                    );
                    lemma_extends_joined(
                        blocks,
                        blocks_before,
                        block_storage.placements(),
                        column_candidates(
                            self.visited(),
                            self.rules(),
                            region,
                            x as int,
                            true,
                            (y - region.min.y) as nat,
                        ),
                        chunk_candidates(self.rules(), chunk, true, self.rules().len()),
                    );
                }
            }
            y = y + 1;
        }
    }

    /// Flags every chunk of the region as generated.
    fn flag_region(&mut self, region: IAabb2)
        ensures
            final(self).rules() == old(self).rules(),
            final(self).visited() == old(self).visited().union(region.points()),
    {
        let ghost flags = self.visited();
        let mut x: i64 = region.min.x as i64;
        while x <= region.max.x as i64
            invariant
                self.rules() == old(self).rules(),
                region.min.x <= x,
                forall|chunk: IVec2|
                    self.visited().contains(chunk) <==> flags.contains(chunk) || (region.contains(
                        chunk,
                    ) && chunk.x < x),
            decreases region.max.x - x + 1,
        {
            let mut y: i64 = region.min.y as i64;
            while y <= region.max.y as i64
                invariant
                    self.rules() == old(self).rules(),
                    region.min.x <= x <= region.max.x,
                    region.min.y <= y,
                    forall|chunk: IVec2|
                        self.visited().contains(chunk) <==> flags.contains(chunk) || (
                        region.contains(chunk) && (chunk.x < x || (chunk.x == x && chunk.y < y))),
                decreases region.max.y - y + 1,
            {
                let chunk = IVec2 { x: x as i32, y: y as i32 };
                let ghost before = self.visited();
                flags_insert(&mut self.grid_flags, point_key_of(chunk));
                proof {
                    assert forall|other: IVec2|
                        self.visited().contains(other) <==> before.contains(other) || other
                            == chunk by {
                        if point_key(other) == point_key(chunk) {
                            lemma_point_key_is_injective(other, chunk);
                        }
                    }
                }
                y = y + 1;
            }
            x = x + 1;
        }
        proof {
            assert(self.visited() =~= flags.union(region.points()));
        }
    }

    /// Generates the world around `rect`.
    ///
    /// The request covers the chunks that `rect` touches and a margin of
    /// `EXTEND_GRID` chunks on every side. All rules of the catalog are
    /// applied, in its order, to each of those chunks that was not generated
    /// before; then all chunks of the region are flagged as generated. What
    /// was placed is behind what the storages held. The entity storage stays
    /// as it is.
    pub fn generate(
        &mut self,
        base_storage: &mut BaseStorage,
        block_storage: &mut BlockStorage,
        entity_storage: &mut EntitySystem,
        rect: IAabb2,
    )
        requires
            Self::in_reach(rect),
        ensures
            final(self).rules() == old(self).rules(),
            final(self).visited() == old(self).visited().union(Self::region(rect).points()),
            extends_by(
                old(base_storage).placements(),
                final(base_storage).placements(),
                Self::candidates(old(self).visited(), old(self).rules(), rect, false),
            ),
            extends_by(
                old(block_storage).placements(),
                final(block_storage).placements(),
                Self::candidates(old(self).visited(), old(self).rules(), rect, true),
            ),
            old(base_storage)@.is_prefix_of(final(base_storage)@),
            old(block_storage)@.is_prefix_of(final(block_storage)@),
            *final(entity_storage) == *old(entity_storage),
    {
        let grid_rect = rect.to_grid_space(Self::GRID_SIZE).extends(Self::EXTEND_GRID);
        let ghost bases = base_storage.placements();
        let ghost blocks = block_storage.placements();
        let ghost base_view = base_storage@;
        let ghost block_view = block_storage@;
        proof {
            lemma_extends_by_nothing(bases);
            lemma_extends_by_nothing(blocks);
        }
        let mut x: i64 = grid_rect.min.x as i64;
        while x <= grid_rect.max.x as i64
            invariant
                *self == *old(self),
                grid_rect == Self::region(rect),
                -0x400_0000 <= grid_rect.min.x <= x,
                -0x400_0000 <= grid_rect.min.y,
                grid_rect.max.x < 0x400_0000,
                grid_rect.max.y < 0x400_0000,
                x <= grid_rect.max.x + 1 || x == grid_rect.min.x,
                extends_by(
                    bases,
                    base_storage.placements(),
                    region_candidates(
                        self.visited(),
                        self.rules(),
                        grid_rect,
                        false,
                        (x - grid_rect.min.x) as nat,
                    ),
                ),
                extends_by(
                    blocks,
                    block_storage.placements(),
                    region_candidates(
                        self.visited(),
                        self.rules(),
                        grid_rect,
                        true,
                        (x - grid_rect.min.x) as nat,
                    ),
                ),
                base_view.is_prefix_of(base_storage@),
                block_view.is_prefix_of(block_storage@),
            decreases grid_rect.max.x - x + 1,
        {
            let ghost bases_before = base_storage.placements();
            let ghost blocks_before = block_storage.placements();
            let ghost base_mid = base_storage@;
            let ghost block_mid = block_storage@;
            self.generate_column(grid_rect, x as i32, base_storage, block_storage);
            proof {
                lemma_prefix_of_prefix(base_view, base_mid, base_storage@);
                lemma_prefix_of_prefix(block_view, block_mid, block_storage@);
                lemma_extends_joined(
                    bases,
                    bases_before,
                    base_storage.placements(),
                    region_candidates(
                        self.visited(),
                        self.rules(),
                        grid_rect,
                        false,
                        (x - grid_rect.min.x) as nat,
                    ),
                    column_candidates(
                        self.visited(),
                        self.rules(),
                        grid_rect,
                        x as int,
                        false,
                        grid_rect.height(),
                    ),
                );
                lemma_extends_joined(
                    blocks,
                    blocks_before,
                    block_storage.placements(),
                    region_candidates(
                        self.visited(),
                        self.rules(),
                        grid_rect,
                        true,
                        (x - grid_rect.min.x) as nat,
                    ),
                    column_candidates(
                        self.visited(),
                        self.rules(),
                        grid_rect,
                        x as int,
                        true,
                        grid_rect.height(),
                    ),
                );
            }
            x = x + 1;
        }
        self.flag_region(grid_rect);
    }
}

/// The law of idempotence: a request that is made a second time places
/// nothing. After the first request the chunks of its region are among the
/// generated ones, whatever was generated before and whatever other requests
/// came between.
pub proof fn lemma_second_request_places_nothing(
    flags: Set<IVec2>,
    rules: Seq<GenerationSpec>,
    rect: IAabb2,
    blocks: bool,
    before: Seq<Placement>,
    after: Seq<Placement>,
)
    requires
        extends_by(
            before,
            after,
            GenerationSystem::candidates(
                flags.union(GenerationSystem::region(rect).points()),
                rules,
                rect,
                blocks,
            ),
        ),
    ensures
        after == before,
{
    lemma_generated_region_has_no_candidates(
        flags.union(GenerationSystem::region(rect).points()),
        rules,
        rect,
        blocks,
        before,
        after,
    );
}

/// Where every chunk of the region of a request was generated before, the
/// request has no candidates, so that nothing is placed.
pub proof fn lemma_generated_region_has_no_candidates(
    flags: Set<IVec2>,
    rules: Seq<GenerationSpec>,
    rect: IAabb2,
    blocks: bool,
    before: Seq<Placement>,
    after: Seq<Placement>,
)
    requires
        GenerationSystem::region(rect).points().subset_of(flags),
        extends_by(before, after, GenerationSystem::candidates(flags, rules, rect, blocks)),
    ensures
        GenerationSystem::candidates(flags, rules, rect, blocks) == Seq::<Candidate>::empty(),
        after == before,
{
    let region = GenerationSystem::region(rect);
    lemma_flagged_columns_are_empty(flags, rules, region, blocks, region.width());
    assert(after.skip(before.len() as int).len() == 0);
    assert(after =~= after.take(before.len() as int));
}

/// The first `n` columns of a region of flagged chunks have no candidates.
proof fn lemma_flagged_columns_are_empty(
    flags: Set<IVec2>,
    rules: Seq<GenerationSpec>,
    region: IAabb2,
    blocks: bool,
    n: nat,
)
    requires
        region.points().subset_of(flags),
        n <= region.width(),
    ensures
        region_candidates(flags, rules, region, blocks, n) == Seq::<Candidate>::empty(),
    decreases n,
{
    if n > 0 {
        lemma_flagged_columns_are_empty(flags, rules, region, blocks, (n - 1) as nat);
        lemma_flagged_chunks_are_empty(
            flags,
            rules,
            region,
            region.min.x + n - 1,
            blocks,
            region.height(),
        );
        assert(Seq::<Candidate>::empty() + Seq::<Candidate>::empty() =~= Seq::<
            Candidate,
        >::empty());
    }
}

/// The first `m` chunks of a column of flagged chunks have no candidates.
proof fn lemma_flagged_chunks_are_empty(
    flags: Set<IVec2>,
    rules: Seq<GenerationSpec>,
    region: IAabb2,
    x: int,
    blocks: bool,
    m: nat,
)
    requires
        region.points().subset_of(flags),
        region.min.x <= x <= region.max.x,
        m <= region.height(),
    ensures
        column_candidates(flags, rules, region, x, blocks, m) == Seq::<Candidate>::empty(),
    decreases m,
{
    if m > 0 {
        lemma_flagged_chunks_are_empty(flags, rules, region, x, blocks, (m - 1) as nat);
        let chunk = IVec2 { x: x as i32, y: (region.min.y + m - 1) as i32 };
        assert(region.points().contains(chunk));
    }
}

/// The candidates of a request come of the rules that place into the
/// storage asked for: what holds of every such rule holds of the rule of
/// every candidate.
pub proof fn lemma_candidates_come_of_rules(
    flags: Set<IVec2>,
    rules: Seq<GenerationSpec>,
    rect: IAabb2,
    blocks: bool,
    holds: spec_fn(GenerationSpec) -> bool,
)
    requires
        forall|r: int|
            0 <= r < rules.len() && (#[trigger] rules[r]).places_blocks() == blocks ==> holds(
                rules[r],
            ),
    ensures
        forall|i: int|
            0 <= i < GenerationSystem::candidates(flags, rules, rect, blocks).len() ==> holds(
                (#[trigger] GenerationSystem::candidates(flags, rules, rect, blocks)[i]).rule,
            ),
{
    let region = GenerationSystem::region(rect);
    lemma_columns_come_of_rules(flags, rules, region, blocks, holds, region.width());
}

proof fn lemma_columns_come_of_rules(
    flags: Set<IVec2>,
    rules: Seq<GenerationSpec>,
    region: IAabb2,
    blocks: bool,
    holds: spec_fn(GenerationSpec) -> bool,
    n: nat,
)
    requires
        forall|r: int|
            0 <= r < rules.len() && (#[trigger] rules[r]).places_blocks() == blocks ==> holds(
                rules[r],
            ),
    ensures
        forall|i: int|
            0 <= i < region_candidates(flags, rules, region, blocks, n).len() ==> holds(
                (#[trigger] region_candidates(flags, rules, region, blocks, n)[i]).rule,
            ),
    decreases n,
{
    if n > 0 {
        lemma_columns_come_of_rules(flags, rules, region, blocks, holds, (n - 1) as nat);
        lemma_chunks_come_of_rules(
            flags,
            rules,
            region,
            region.min.x + n - 1,
            blocks,
            holds,
            region.height(),
        );
    }
}

proof fn lemma_chunks_come_of_rules(
    flags: Set<IVec2>,
    rules: Seq<GenerationSpec>,
    region: IAabb2,
    x: int,
    blocks: bool,
    holds: spec_fn(GenerationSpec) -> bool,
    m: nat,
)
    requires
        forall|r: int|
            0 <= r < rules.len() && (#[trigger] rules[r]).places_blocks() == blocks ==> holds(
                rules[r],
            ),
    ensures
        forall|i: int|
            0 <= i < column_candidates(flags, rules, region, x, blocks, m).len() ==> holds(
                (#[trigger] column_candidates(flags, rules, region, x, blocks, m)[i]).rule,
            ),
    decreases m,
{
    if m > 0 {
        lemma_chunks_come_of_rules(flags, rules, region, x, blocks, holds, (m - 1) as nat);
        let chunk = IVec2 { x: x as i32, y: (region.min.y + m - 1) as i32 };
        lemma_chunk_comes_of_rules(rules, chunk, blocks, holds, rules.len());
    }
}

proof fn lemma_chunk_comes_of_rules(
    rules: Seq<GenerationSpec>,
    chunk: IVec2,
    blocks: bool,
    holds: spec_fn(GenerationSpec) -> bool,
    n: nat,
)
    requires
        n <= rules.len(),
        forall|r: int|
            0 <= r < rules.len() && (#[trigger] rules[r]).places_blocks() == blocks ==> holds(
                rules[r],
            ),
    ensures
        forall|i: int|
            0 <= i < chunk_candidates(rules, chunk, blocks, n).len() ==> holds(
                (#[trigger] chunk_candidates(rules, chunk, blocks, n)[i]).rule,
            ),
    decreases n,
{
    if n > 0 {
        lemma_chunk_comes_of_rules(rules, chunk, blocks, holds, (n - 1) as nat);
    }
}

/// The law of determinism: where every rule that places into a storage is
/// certain, as a filling rule is and a rule of probability 1, a request
/// places all its candidates there, each once and in their order, whatever
/// the random source gives.
pub proof fn lemma_certain_rules_place_every_candidate(
    flags: Set<IVec2>,
    rules: Seq<GenerationSpec>,
    rect: IAabb2,
    blocks: bool,
    before: Seq<Placement>,
    after: Seq<Placement>,
)
    requires
        forall|r: int|
            0 <= r < rules.len() && (#[trigger] rules[r]).places_blocks() == blocks
                ==> rules[r].is_certain(),
        extends_by(before, after, GenerationSystem::candidates(flags, rules, rect, blocks)),
    ensures
        after == before + GenerationSystem::candidates(flags, rules, rect, blocks).map_values(
            |candidate: Candidate| candidate.placement(),
        ),
{
    let candidates = GenerationSystem::candidates(flags, rules, rect, blocks);
    lemma_candidates_come_of_rules(
        flags,
        rules,
        rect,
        blocks,
        |rule: GenerationSpec| rule.is_certain(),
    );
    lemma_certain_candidates_are_placed(candidates, after.skip(before.len() as int));
    assert(after =~= after.take(before.len() as int) + after.skip(before.len() as int));
}

/// The law of probability 0: where every rule that places into a storage is
/// impossible, a request places nothing there.
pub proof fn lemma_impossible_rules_place_nothing(
    flags: Set<IVec2>,
    rules: Seq<GenerationSpec>,
    rect: IAabb2,
    blocks: bool,
    before: Seq<Placement>,
    after: Seq<Placement>,
)
    requires
        forall|r: int|
            0 <= r < rules.len() && (#[trigger] rules[r]).places_blocks() == blocks
                ==> rules[r].is_impossible(),
        extends_by(before, after, GenerationSystem::candidates(flags, rules, rect, blocks)),
    ensures
        after == before,
{
    let candidates = GenerationSystem::candidates(flags, rules, rect, blocks);
    lemma_candidates_come_of_rules(
        flags,
        rules,
        rect,
        blocks,
        |rule: GenerationSpec| rule.is_impossible(),
    );
    lemma_impossible_candidates_are_not_placed(candidates, after.skip(before.len() as int));
    assert(after.skip(before.len() as int).len() == 0);
    assert(after =~= after.take(before.len() as int));
}

/// The law of one rule on one chunk: a rule has a candidate on each lattice
/// position of a chunk that is generated, 1024 of them; all are placed where
/// the rule is certain, and none where it is impossible.
pub proof fn lemma_rule_on_chunk(
    rule: GenerationSpec,
    chunk: IVec2,
    before: Seq<Placement>,
    after: Seq<Placement>,
)
    requires
        extends_by(before, after, rule_candidates(rule, chunk, rule.places_blocks())),
    ensures
        rule.is_certain() ==> after == before + Seq::new(
            CHUNK_POSITIONS as nat,
            |i: int|
                Placement { spec_id: rule.placed_spec_id(), position: lattice_point(chunk, i) },
        ),
        rule.is_impossible() ==> after == before,
{
    let candidates = lattice_candidates(rule, chunk);
    let placed = after.skip(before.len() as int);
    if rule.is_certain() {
        lemma_certain_candidates_are_placed(candidates, placed);
        assert(after =~= after.take(before.len() as int) + placed);
        assert(candidates.map_values(|candidate: Candidate| candidate.placement()) =~= Seq::new(
            CHUNK_POSITIONS as nat,
            |i: int|
                Placement { spec_id: rule.placed_spec_id(), position: lattice_point(chunk, i) },
        ));
    }
    if rule.is_impossible() {
        lemma_impossible_candidates_are_not_placed(candidates, placed);
        assert(placed.len() == 0);
        assert(after =~= after.take(before.len() as int));
    }
}

/// What is in one of two sequences is in the two joined.
proof fn lemma_joined_contains(first: Seq<Candidate>, second: Seq<Candidate>, candidate: Candidate)
    requires
        first.contains(candidate) || second.contains(candidate),
    ensures
        (first + second).contains(candidate),
{
    if first.contains(candidate) {
        let k = choose|k: int| 0 <= k < first.len() && first[k] == candidate;
        assert((first + second)[k] == candidate);
    } else {
        let k = choose|k: int| 0 <= k < second.len() && second[k] == candidate;
        assert((first + second)[first.len() + k] == candidate);
    }
}

/// Every rule has its candidates among those of a chunk.
proof fn lemma_chunk_has_candidate(
    rules: Seq<GenerationSpec>,
    chunk: IVec2,
    blocks: bool,
    n: nat,
    r: int,
    i: int,
)
    requires
        0 <= r < n <= rules.len(),
        rules[r].places_blocks() == blocks,
        0 <= i < CHUNK_POSITIONS,
    ensures
        chunk_candidates(rules, chunk, blocks, n).contains(
            Candidate { rule: rules[r], position: lattice_point(chunk, i) },
        ),
    decreases n,
{
    let candidate = Candidate { rule: rules[r], position: lattice_point(chunk, i) };
    let before = chunk_candidates(rules, chunk, blocks, (n - 1) as nat);
    let last = rule_candidates(rules[n - 1], chunk, blocks);
    if r == n - 1 {
        assert(last[i] == candidate);
    } else {
        lemma_chunk_has_candidate(rules, chunk, blocks, (n - 1) as nat, r, i);
    }
    lemma_joined_contains(before, last, candidate);
}

/// Every chunk of a column that was not generated before has its
/// candidates among those of the column.
proof fn lemma_column_has_candidate(
    flags: Set<IVec2>,
    rules: Seq<GenerationSpec>,
    region: IAabb2,
    blocks: bool,
    m: nat,
    chunk: IVec2,
    r: int,
    i: int,
)
    requires
        region.min.y <= chunk.y < region.min.y + m,
        !flags.contains(chunk),
        0 <= r < rules.len(),
        rules[r].places_blocks() == blocks,
        0 <= i < CHUNK_POSITIONS,
    ensures
        column_candidates(flags, rules, region, chunk.x as int, blocks, m).contains(
            Candidate { rule: rules[r], position: lattice_point(chunk, i) },
        ),
    decreases m,
{
    let candidate = Candidate { rule: rules[r], position: lattice_point(chunk, i) };
    let x = chunk.x as int;
    let before = column_candidates(flags, rules, region, x, blocks, (m - 1) as nat);
    let last = IVec2 { x: x as i32, y: (region.min.y + m - 1) as i32 };
    if chunk.y == region.min.y + m - 1 {
        assert(last == chunk);
        lemma_chunk_has_candidate(rules, chunk, blocks, rules.len(), r, i);
        lemma_joined_contains(
            before,
            chunk_candidates(rules, chunk, blocks, rules.len()),
            candidate,
        );
    } else {
        lemma_column_has_candidate(flags, rules, region, blocks, (m - 1) as nat, chunk, r, i);
        if !flags.contains(last) {
            lemma_joined_contains(
                before,
                chunk_candidates(rules, last, blocks, rules.len()),
                candidate,
            );
        }
    }
}

/// Every chunk of the first columns of a region that was not generated
/// before has its candidates among those of the columns.
proof fn lemma_columns_have_candidate(
    flags: Set<IVec2>,
    rules: Seq<GenerationSpec>,
    region: IAabb2,
    blocks: bool,
    n: nat,
    chunk: IVec2,
    r: int,
    i: int,
)
    requires
        region.min.x <= chunk.x < region.min.x + n,
        region.min.y <= chunk.y <= region.max.y,
        !flags.contains(chunk),
        0 <= r < rules.len(),
        rules[r].places_blocks() == blocks,
        0 <= i < CHUNK_POSITIONS,
    ensures
        region_candidates(flags, rules, region, blocks, n).contains(
            Candidate { rule: rules[r], position: lattice_point(chunk, i) },
        ),
    decreases n,
{
    let candidate = Candidate { rule: rules[r], position: lattice_point(chunk, i) };
    let before = region_candidates(flags, rules, region, blocks, (n - 1) as nat);
    let last = column_candidates(
        flags,
        rules,
        region,
        region.min.x + n - 1,
        blocks,
        region.height(),
    );
    if chunk.x == region.min.x + n - 1 {
        lemma_column_has_candidate(flags, rules, region, blocks, region.height(), chunk, r, i);
    } else {
        lemma_columns_have_candidate(flags, rules, region, blocks, (n - 1) as nat, chunk, r, i);
    }
    lemma_joined_contains(before, last, candidate);
}

/// The law that a request has, for every chunk of its region that was not
/// generated before and every rule, a candidate on each lattice position of
/// the chunk.
pub proof fn lemma_fresh_chunk_has_its_candidates(
    flags: Set<IVec2>,
    rules: Seq<GenerationSpec>,
    rect: IAabb2,
    chunk: IVec2,
    r: int,
    i: int,
)
    requires
        GenerationSystem::region(rect).contains(chunk),
        !flags.contains(chunk),
        0 <= r < rules.len(),
        0 <= i < CHUNK_POSITIONS,
    ensures
        GenerationSystem::candidates(flags, rules, rect, rules[r].places_blocks()).contains(
            Candidate { rule: rules[r], position: lattice_point(chunk, i) },
        ),
{
    let region = GenerationSystem::region(rect);
    lemma_columns_have_candidate(
        flags,
        rules,
        region,
        rules[r].places_blocks(),
        region.width(),
        chunk,
        r,
        i,
    );
}

/// The law of the first visit: a request places for every certain rule, as
/// a filling rule is, on each lattice position of every chunk of its region
/// that was not generated before, whatever the other rules are.
pub proof fn lemma_certain_rule_fills_fresh_chunk(
    flags: Set<IVec2>,
    rules: Seq<GenerationSpec>,
    rect: IAabb2,
    before: Seq<Placement>,
    after: Seq<Placement>,
    chunk: IVec2,
    r: int,
    i: int,
)
    requires
        GenerationSystem::region(rect).contains(chunk),
        !flags.contains(chunk),
        0 <= r < rules.len(),
        rules[r].is_certain(),
        0 <= i < CHUNK_POSITIONS,
        extends_by(
            before,
            after,
            GenerationSystem::candidates(flags, rules, rect, rules[r].places_blocks()),
        ),
    ensures
        after.skip(before.len() as int).contains(
            Placement { spec_id: rules[r].placed_spec_id(), position: lattice_point(chunk, i) },
        ),
{
    let candidates = GenerationSystem::candidates(flags, rules, rect, rules[r].places_blocks());
    let candidate = Candidate { rule: rules[r], position: lattice_point(chunk, i) };
    lemma_fresh_chunk_has_its_candidates(flags, rules, rect, chunk, r, i);
    let k = choose|k: int| 0 <= k < candidates.len() && candidates[k] == candidate;
    lemma_certain_candidate_is_placed(candidates, after.skip(before.len() as int), k);
}

/// The lattice positions of a chunk are the positions of its square of
/// `GRID_SIZE` by `GRID_SIZE`, each once.
pub proof fn lemma_lattice_is_the_chunk(chunk: IVec2, position: IVec2)
    requires
        chunk_in_reach(chunk),
    ensures
        (exists|i: int| 0 <= i < CHUNK_POSITIONS && lattice_point(chunk, i) == position) <==> {
            &&& chunk.x * CHUNK_SIZE <= position.x < chunk.x * CHUNK_SIZE + CHUNK_SIZE
            &&& chunk.y * CHUNK_SIZE <= position.y < chunk.y * CHUNK_SIZE + CHUNK_SIZE
        },
        forall|i: int, j: int|
            0 <= i < j < CHUNK_POSITIONS ==> lattice_point(chunk, i) != lattice_point(chunk, j),
{
    if chunk.x * CHUNK_SIZE <= position.x < chunk.x * CHUNK_SIZE + CHUNK_SIZE && chunk.y
        * CHUNK_SIZE <= position.y < chunk.y * CHUNK_SIZE + CHUNK_SIZE {
        let i = (position.x - chunk.x * CHUNK_SIZE) * CHUNK_SIZE + (position.y - chunk.y
            * CHUNK_SIZE);
        assert(lattice_point(chunk, i) == position);
    }
}

} // verus!
