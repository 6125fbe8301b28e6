//! The deterministic parts of tile generation: the seeds each tile and quest is drawn
//! from, and the filter that keeps the first quests small.
use vstd::prelude::*;
use vstd::wrapping::i32_specs;
use crate::game_config::GroupType;

verus! {

/// A restriction on the quests that may be drawn.
#[derive(Debug, Clone, Copy, PartialEq, Eq, Structural)]
pub enum TileGenFilter {
    NoFilter,
    AtLeastTwoEmptyEdges,
}

impl TileGenFilter {
    /// Whether a quest sub-collection whose tiles cover `occupied_edges` edges may be
    /// drawn under this filter: with two empty edges required, at most four edges.
    pub fn allows(&self, occupied_edges: usize) -> (r: bool)
        ensures
            r == (*self == TileGenFilter::NoFilter || occupied_edges < 5),
    {
        match self {
            TileGenFilter::AtLeastTwoEmptyEdges => occupied_edges < 5,
            TileGenFilter::NoFilter => true,
        }
    }
}

/// The filter for the tile numbered `generated_tile_count` (counted after it): the first
/// `turns` tiles need two empty edges.
pub fn filter_for_turn(generated_tile_count: i32, turns: i32) -> (f: TileGenFilter)
    ensures
        f == (if generated_tile_count <= turns {
            TileGenFilter::AtLeastTwoEmptyEdges
        } else {
            TileGenFilter::NoFilter
        }),
{
    if generated_tile_count <= turns {
        TileGenFilter::AtLeastTwoEmptyEdges
    } else {
        TileGenFilter::NoFilter
    }
}

/// The seed of the next tile: the generation seed plus the step times the tiles that
/// were not quests so far, in wrapping arithmetic.
pub fn tile_seed(tile_generation_seed: i32, generated_tile_count: i32, generated_quest_count: i32, step: i32) -> (s: i32)
    requires
        i32::MIN <= generated_tile_count - generated_quest_count <= i32::MAX,
    ensures
        s == i32_specs::wrapping_add(
            tile_generation_seed,
            i32_specs::wrapping_mul((generated_tile_count - generated_quest_count) as i32, step),
        ),
{
    tile_generation_seed.wrapping_add((generated_tile_count - generated_quest_count).wrapping_mul(step))
}

/// The seed of the roll that decides whether the tile numbered `generated_tile_count`
/// (counted after it) is a quest, in wrapping arithmetic.
pub fn quest_check_seed(tile_generation_seed: i32, generated_tile_count: i32, step: i32) -> (s: i32)
    ensures
        s == i32_specs::wrapping_add(tile_generation_seed, i32_specs::wrapping_mul(generated_tile_count, step)),
{
    tile_generation_seed.wrapping_add(generated_tile_count.wrapping_mul(step))
}

/// The seed a new quest is drawn from, given the quests generated before it, in wrapping
/// arithmetic.
pub fn quest_seed(tile_generation_seed: i32, generated_quest_count: i32, step: i32) -> (s: i32)
    ensures
        s == i32_specs::wrapping_add(tile_generation_seed, i32_specs::wrapping_mul(generated_quest_count, step)),
{
    tile_generation_seed.wrapping_add(generated_quest_count.wrapping_mul(step))
}


/// Whether a quest sub-collection whose tiles show the terrains `all_segment_types` may be
/// drawn when the terrains `excluded` are left out of the game: none of its terrains is
/// excluded.
pub fn segment_types_allowed(all_segment_types: &Vec<GroupType>, excluded: &Vec<GroupType>) -> (r: bool)
    ensures
        r == forall|i: int| 0 <= i < all_segment_types@.len() ==> !excluded@.contains(#[trigger] all_segment_types@[i]),
{
    let mut i: usize = 0;
    while i < all_segment_types.len()
        invariant
            i <= all_segment_types@.len(),
            forall|k: int| 0 <= k < i ==> !excluded@.contains(#[trigger] all_segment_types@[k]),
        decreases all_segment_types@.len() - i,
    {
        let gt = all_segment_types[i];
        let mut j: usize = 0;
        while j < excluded.len()
            invariant
                i < all_segment_types@.len(),
                gt == all_segment_types@[i as int],
                j <= excluded@.len(),
                forall|k: int| 0 <= k < j ==> excluded@[k] != gt,
            decreases excluded@.len() - j,
        {
            if excluded[j] == gt {
                assert(excluded@.contains(all_segment_types@[i as int])) by {
                    assert(excluded@[j as int] == gt);
                }
                return false;
            }
            j += 1;
        }
        i += 1;
    }
    true
}

} // verus!
