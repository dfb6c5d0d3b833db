//! The read-only catalog of entity kinds and generation rules.

use vstd::prelude::*;

verus! {

/// What the store reads of an entity kind.
#[derive(Clone, Copy, Debug, PartialEq, Eq, Structural)]
pub struct EntitySpec {
    /// The layer that separates spatial queries.
    pub layer_id: usize,
}

/// A success probability in steps of 2^-24.
///
/// A trial draws 24 uniformly random bits and succeeds when the drawn number
/// is below `threshold`. So a threshold of 0 never succeeds, and one of
/// `Probability::ONE` or more always does.
#[derive(Clone, Copy, Debug, PartialEq, Eq, Structural)]
pub struct Probability {
    pub threshold: u32,
}

impl Probability {
    /// The threshold that stands for probability 1.
    pub const ONE: u32 = 0x100_0000;

    pub fn new(threshold: u32) -> (p: Probability)
        ensures
            p.threshold == threshold,
    {
        Probability { threshold }
    }

    /// Probability 0: no trial succeeds.
    pub open spec fn is_never(self) -> bool {
        self.threshold == 0
    }

    /// Probability 1: every trial succeeds.
    pub open spec fn is_always(self) -> bool {
        self.threshold >= Self::ONE
    }

    /// Whether a trial with the 32 random bits `draw` succeeds. The upper 24
    /// bits of the draw are the number compared.
    pub open spec fn admits(self, draw: u32) -> bool {
        draw / 0x100 < self.threshold
    }

    /// Decides one trial from its 32 random bits.
    pub fn trial(self, draw: u32) -> (success: bool)
        ensures
            success == self.admits(draw),
            self.is_never() ==> !success,
            self.is_always() ==> success,
    {
        draw / 0x100 < self.threshold
    }
}

/// A rule that places content on the lattice positions of a chunk.
#[derive(Clone, Copy, Debug, PartialEq, Eq, Structural)]
pub enum GenerationSpec {
    /// A base tile on every lattice position.
    FillBase { base_spec_id: usize },
    /// A base tile on each lattice position where a trial succeeds.
    RandomBase { base_spec_id: usize, probability: Probability },
    /// A block on each lattice position where a trial succeeds.
    RandomBlock { block_spec_id: usize, probability: Probability },
}

impl GenerationSpec {
    /// Whether the rule places blocks; the other rules place base tiles.
    pub open spec fn places_blocks(self) -> bool {
        self is RandomBlock
    }

    /// The kind of tile or block that the rule places.
    pub open spec fn placed_spec_id(self) -> usize {
        match self {
            GenerationSpec::FillBase { base_spec_id } => base_spec_id,
            GenerationSpec::RandomBase { base_spec_id, .. } => base_spec_id,
            GenerationSpec::RandomBlock { block_spec_id, .. } => block_spec_id,
        }
    }

    /// Whether the rule places on every lattice position: it fills, or its
    /// probability is 1.
    pub open spec fn is_certain(self) -> bool {
        match self {
            GenerationSpec::FillBase { .. } => true,
            GenerationSpec::RandomBase { probability, .. } => probability.is_always(),
            GenerationSpec::RandomBlock { probability, .. } => probability.is_always(),
        }
    }

    /// Whether the rule places on no lattice position: its probability is 0.
    pub open spec fn is_impossible(self) -> bool {
        match self {
            GenerationSpec::FillBase { .. } => false,
            GenerationSpec::RandomBase { probability, .. } => probability.is_never(),
            GenerationSpec::RandomBlock { probability, .. } => probability.is_never(),
        }
    }
}

/// The catalog, indexed by spec id.
pub struct Assets {
    pub entity_specs: Vec<EntitySpec>,
    pub generation_specs: Vec<GenerationSpec>,
}

impl Assets {
    pub fn new(entity_specs: Vec<EntitySpec>, generation_specs: Vec<GenerationSpec>) -> (assets:
        Assets)
        ensures
            assets.entity_specs == entity_specs,
            assets.generation_specs == generation_specs,
    {
        Assets { entity_specs, generation_specs }
    }

    /// The layer of the entity kind `spec_id`.
    pub open spec fn layer_of(&self, spec_id: usize) -> usize
        recommends
            spec_id < self.entity_specs.len(),
    {
        self.entity_specs[spec_id as int].layer_id
    }
}

} // verus!
