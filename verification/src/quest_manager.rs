//! Bookkeeping of open quests: which quests count towards the quest limit, the level
//! gained from fulfilled quests, and the active-quest count handed to the tile
//! generator three tiles ahead.
use vstd::prelude::*;
use std::collections::VecDeque;
use crate::game_config::{GroupType, get_quest_prefab_min_target_count, spec_min_target_count};
use crate::tile::{
    GeneratedTile, QuestTileData, EqualityComparison, tile_fits, spec_primary_group_type, spec_own_elements_for_group,
};
use crate::board::{Board, PlacedTile, FulfillmentStatus, max_ref_count};
use crate::text::{chars_of, lowercase_chars, contains_str, spec_to_lowercase, seq_contains_sub};

verus! {

/// A quest that is open on the board or in the stack.
#[derive(Debug, Clone)]
pub struct ActiveQuest {
    pub quest_id: usize,
    pub quest_type: String,
    pub counts_towards_limit: bool,
}

/// The quest bookkeeping of one game.
#[derive(Debug, Clone)]
pub struct QuestManager {
    /// The session level: one per fulfilled quest.
    pub level: usize,
    /// The open quests.
    pub active_quests: Vec<ActiveQuest>,
    /// The id the next registered quest receives.
    pub next_quest_id: usize,
    /// The active-quest counts computed for the coming tiles, oldest first.
    pub upcoming_quest_counts: VecDeque<i32>,
    /// The count computed last.
    pub last_computed_count: i32,
    /// Whether the tile placed last was a quest tile.
    pub prev_tile_was_quest: bool,
}

/// Whether a quest of this prefab counts towards the quest limit: all do except unlock,
/// challenge and crown quests.
pub open spec fn spec_counts_towards_limit(quest_type: Seq<char>) -> bool {
    limit_from(spec_to_lowercase(quest_type))
}

/// Whether a quest whose lowercased prefab name is `l` counts towards the quest limit:
/// unless `l` mentions unlock, challenge or crown.
pub open spec fn limit_from(l: Seq<char>) -> bool {
    !(seq_contains_sub(l, "unlock"@) || seq_contains_sub(l, "challenge"@) || seq_contains_sub(l, "crown"@))
}

/// Whether a quest whose lowercased prefab name is `lower` counts towards the quest limit.
pub fn counts_towards_limit_from(lower: &Vec<char>) -> (r: bool)
    ensures
        r == limit_from(lower@),
{
    if contains_str(lower, "unlock") || contains_str(lower, "challenge") || contains_str(lower, "crown") {
        return false;
    }
    true
}

/// How many of the quests count towards the limit.
pub open spec fn limited_count(qs: Seq<ActiveQuest>) -> nat
    decreases qs.len(),
{
    if qs.len() == 0 {
        0
    } else {
        limited_count(qs.drop_last()) + if qs.last().counts_towards_limit {
            1nat
        } else {
            0nat
        }
    }
}

/// The count for the tile three placements ahead: the last count, plus two when the
/// tile just placed is a quest, less one when the tile before it was, less the quests
/// decided this turn (taken as an `i32`), and never below zero.
pub open spec fn next_count(prev: i32, is_quest: bool, prev_was_quest: bool, quests_resolved: usize) -> int {
    let v = prev + (if is_quest { 2int } else { 0int }) - (if prev_was_quest { 1int } else { 0int }) - (quests_resolved as i32);
    if v < 0 {
        0
    } else {
        v
    }
}

/// The quests whose id is not `id`.
pub open spec fn other_than(id: usize) -> spec_fn(ActiveQuest) -> bool {
    |q: ActiveQuest| q.quest_id != id
}

/// The steps of `next_count` stay within `i32`.
pub open spec fn update_fits(prev: i32, is_quest: bool, prev_was_quest: bool, quests_resolved: usize) -> bool {
    let a = prev + (if is_quest { 2int } else { 0int });
    let b = a - (if prev_was_quest { 1int } else { 0int });
    let c = b - (quests_resolved as i32);
    &&& i32::MIN <= a <= i32::MAX
    &&& i32::MIN <= b <= i32::MAX
    &&& i32::MIN <= c <= i32::MAX
}

impl Default for QuestManager {
    /// A manager at level 0 with no open quest.
    fn default() -> (m: Self)
        ensures
            m.level == 0,
            m.active_quests@.len() == 0,
            m.next_quest_id == 1,
            m.upcoming_quest_counts@ == seq![0i32, 0, 0],
            m.last_computed_count == 0,
            !m.prev_tile_was_quest,
    {
        QuestManager::new()
    }
}

impl QuestManager {
    /// A manager at level 0 with no open quest and a count of 0 for the first three tiles.
    pub fn new() -> (m: Self)
        ensures
            m.level == 0,
            m.active_quests@.len() == 0,
            m.next_quest_id == 1,
            m.upcoming_quest_counts@ == seq![0i32, 0, 0],
            m.last_computed_count == 0,
            !m.prev_tile_was_quest,
    {
        let mut q: VecDeque<i32> = VecDeque::new();
        q.push_back(0);
        q.push_back(0);
        q.push_back(0);
        assert(q@ =~= seq![0i32, 0, 0]);
        QuestManager {
            level: 0,
            active_quests: Vec::new(),
            next_quest_id: 1,
            upcoming_quest_counts: q,
            last_computed_count: 0,
            prev_tile_was_quest: false,
        }
    }

    /// The reference group count a freshly drawn quest uses: the quest tile itself holds
    /// one group.
    pub fn reference_group_count(&self, _group_type: GroupType) -> (r: usize)
        ensures
            r == 1,
    {
        1
    }

    /// Whether a quest of this prefab counts towards the quest limit.
    pub fn counts_towards_quest_limit(quest_type: &str) -> (r: bool)
        ensures
            r == spec_counts_towards_limit(quest_type@),
    {
        let cs = chars_of(quest_type);
        let lower = lowercase_chars(&cs);
        counts_towards_limit_from(&lower)
    }

    /// The number of open quests that count towards the limit.
    pub fn active_quest_count(&self) -> (r: i32)
        ensures
            r == limited_count(self.active_quests@) as i32,
    {
        let mut n: usize = 0;
        let mut i: usize = 0;
        assert(self.active_quests@.take(0) =~= Seq::<ActiveQuest>::empty());
        while i < self.active_quests.len()
            invariant
                i <= self.active_quests@.len(),
                n == limited_count(self.active_quests@.take(i as int)),
                n <= i,
            decreases self.active_quests@.len() - i,
        {
            assert(self.active_quests@.take(i + 1).drop_last() =~= self.active_quests@.take(i as int));
            if self.active_quests[i].counts_towards_limit {
                n += 1;
            }
            i += 1;
        }
        assert(self.active_quests@.take(self.active_quests@.len() as int) =~= self.active_quests@);
        n as i32
    }

    /// Takes the count computed for the next tile (0 when none is left).
    pub fn pop_next_active_quest_count(&mut self) -> (r: i32)
        ensures
            old(self).upcoming_quest_counts@.len() > 0 ==> r == old(self).upcoming_quest_counts@[0]
                && final(self).upcoming_quest_counts@ == old(self).upcoming_quest_counts@.drop_first(),
            old(self).upcoming_quest_counts@.len() == 0 ==> r == 0 && final(self).upcoming_quest_counts@
                == old(self).upcoming_quest_counts@,
            final(self).level == old(self).level,
            final(self).active_quests == old(self).active_quests,
            final(self).next_quest_id == old(self).next_quest_id,
            final(self).last_computed_count == old(self).last_computed_count,
            final(self).prev_tile_was_quest == old(self).prev_tile_was_quest,
    {
        match self.upcoming_quest_counts.pop_front() {
            Some(v) => v,
            None => 0,
        }
    }

    /// Computes, after a placement, the count for the tile three placements ahead and
    /// queues it.
    pub fn update_after_placement(&mut self, is_quest: bool, quests_resolved: usize)
        requires
            update_fits(old(self).last_computed_count, is_quest, old(self).prev_tile_was_quest, quests_resolved),
        ensures
            final(self).last_computed_count == next_count(old(self).last_computed_count, is_quest,
                old(self).prev_tile_was_quest, quests_resolved),
            final(self).upcoming_quest_counts@ == old(self).upcoming_quest_counts@.push(final(self).last_computed_count),
            final(self).prev_tile_was_quest == is_quest,
            final(self).level == old(self).level,
            final(self).active_quests == old(self).active_quests,
            final(self).next_quest_id == old(self).next_quest_id,
    {
        let prev = self.last_computed_count;
        let plus_quest: i32 = if is_quest { 2 } else { 0 };
        let minus_prev_quest: i32 = if self.prev_tile_was_quest { 1 } else { 0 };
        let resolved = quests_resolved as i32;
        let v = prev + plus_quest - minus_prev_quest - resolved;
        let new_count = if v < 0 { 0 } else { v };
        self.last_computed_count = new_count;
        self.upcoming_quest_counts.push_back(new_count);
        self.prev_tile_was_quest = is_quest;
    }

    /// Registers a new quest and returns its id.
    pub fn add_quest(&mut self, quest_type: &str) -> (id: usize)
        requires
            old(self).next_quest_id < usize::MAX,
        ensures
            id == old(self).next_quest_id,
            final(self).next_quest_id == id + 1,
            final(self).active_quests@.len() == old(self).active_quests@.len() + 1,
            final(self).active_quests@.drop_last() == old(self).active_quests@,
            final(self).active_quests@.last().quest_id == id,
            final(self).active_quests@.last().quest_type@ == quest_type@,
            final(self).active_quests@.last().counts_towards_limit == spec_counts_towards_limit(quest_type@),
            final(self).level == old(self).level,
            final(self).upcoming_quest_counts == old(self).upcoming_quest_counts,
            final(self).last_computed_count == old(self).last_computed_count,
            final(self).prev_tile_was_quest == old(self).prev_tile_was_quest,
    {
        let quest_id = self.next_quest_id;
        self.next_quest_id = self.next_quest_id + 1;
        let counts_towards_limit = Self::counts_towards_quest_limit(quest_type);
        self.active_quests.push(ActiveQuest { quest_id, quest_type: String::from_str(quest_type), counts_towards_limit });
        assert(self.active_quests@.drop_last() =~= old(self).active_quests@);
        quest_id
    }

    /// Drops every open quest with id `quest_id`, keeping the others in order.
    pub fn remove_quest(&mut self, quest_id: usize)
        ensures
            final(self).active_quests@ == old(self).active_quests@.filter(other_than(quest_id)),
            final(self).level == old(self).level,
            final(self).next_quest_id == old(self).next_quest_id,
            final(self).upcoming_quest_counts == old(self).upcoming_quest_counts,
            final(self).last_computed_count == old(self).last_computed_count,
            final(self).prev_tile_was_quest == old(self).prev_tile_was_quest,
    {
        let ghost orig = self.active_quests@;
        let ghost keep = other_than(quest_id);
        let mut i: usize = 0;
        let ghost mut j: int = 0;
        assert(orig.take(0).filter(keep) =~= Seq::<ActiveQuest>::empty());
        assert(self.active_quests@ =~= orig.take(0).filter(keep) + orig.skip(0));
        while i < self.active_quests.len()
            invariant
                keep == other_than(quest_id),
                0 <= j <= orig.len(),
                i == orig.take(j).filter(keep).len(),
                self.active_quests@ == orig.take(j).filter(keep) + orig.skip(j),
                self.level == old(self).level,
                self.next_quest_id == old(self).next_quest_id,
                self.upcoming_quest_counts == old(self).upcoming_quest_counts,
                self.last_computed_count == old(self).last_computed_count,
                self.prev_tile_was_quest == old(self).prev_tile_was_quest,
            decreases orig.len() - j,
        {
            proof {
                assert(orig.take(j + 1).drop_last() =~= orig.take(j));
                assert(self.active_quests@[i as int] == orig[j]);
                assert(orig.take(j + 1) =~= orig.take(j).push(orig[j]));
                assert(orig.take(j + 1).last() == orig[j]);
                assert(keep(orig[j]) == (orig[j].quest_id != quest_id));
                reveal(Seq::filter);
            }
            if self.active_quests[i].quest_id == quest_id {
                let _removed = self.active_quests.remove(i);
                proof {
                    reveal(Seq::filter);
                    assert(orig.take(j + 1).filter(keep) =~= orig.take(j).filter(keep));
                    assert(orig.skip(j).drop_first() =~= orig.skip(j + 1));
                    assert(self.active_quests@ =~= orig.take(j + 1).filter(keep) + orig.skip(j + 1));
                    j = j + 1;
                }
            } else {
                proof {
                    reveal(Seq::filter);
                    assert(orig.skip(j).drop_first() =~= orig.skip(j + 1));
                    assert(orig.take(j + 1).filter(keep) =~= orig.take(j).filter(keep).push(orig[j]));
                    assert(self.active_quests@ =~= orig.take(j + 1).filter(keep) + orig.skip(j + 1));
                    j = j + 1;
                }
                i += 1;
            }
        }
        proof {
            assert(j == orig.len()) by {
                if j < orig.len() {
                    assert(self.active_quests@.len() == i + orig.skip(j).len());
                }
            };
            assert(orig.take(j) =~= orig);
            assert(self.active_quests@ =~= orig.filter(keep));
        }
    }

    /// Raises the level by `count`.
    pub fn gain_levels(&mut self, count: usize)
        requires
            old(self).level + count <= usize::MAX,
        ensures
            final(self).level == old(self).level + count,
            final(self).active_quests == old(self).active_quests,
            final(self).next_quest_id == old(self).next_quest_id,
            final(self).upcoming_quest_counts == old(self).upcoming_quest_counts,
            final(self).last_computed_count == old(self).last_computed_count,
            final(self).prev_tile_was_quest == old(self).prev_tile_was_quest,
    {
        self.level = self.level + count;
    }

    /// Drops all open quests.
    pub fn clear(&mut self)
        ensures
            final(self).active_quests@.len() == 0,
            final(self).level == old(self).level,
            final(self).next_quest_id == old(self).next_quest_id,
            final(self).upcoming_quest_counts == old(self).upcoming_quest_counts,
            final(self).last_computed_count == old(self).last_computed_count,
            final(self).prev_tile_was_quest == old(self).prev_tile_was_quest,
    {
        self.active_quests.clear();
    }
}


/// The larger of two counts.
pub open spec fn max_nat(a: nat, b: nat) -> nat {
    if a >= b {
        a
    } else {
        b
    }
}

/// The target of a quest: the larger of the reference count (one, the quest tile itself)
/// and the prefab's minimum, plus the condition's value and the difficulty increase.
pub open spec fn spec_target_value(min_target_count: nat, condition_target_value: nat, difficulty_increase: nat) -> nat {
    max_nat(1, min_target_count) + condition_target_value + difficulty_increase
}

impl QuestManager {
    /// The target of a quest drawn with minimum `min_target_count`, condition value
    /// `condition_target_value` and the difficulty increase of the current level.
    pub fn calculate_target_value(
        &self,
        quest_tile: &QuestTileData,
        min_target_count: usize,
        condition_target_value: usize,
        difficulty_increase: usize,
    ) -> (r: usize)
        requires
            spec_target_value(min_target_count as nat, condition_target_value as nat, difficulty_increase as nat)
                <= usize::MAX,
        ensures
            r == spec_target_value(min_target_count as nat, condition_target_value as nat, difficulty_increase as nat),
    {
        let group_type = quest_tile.primary_group_type();
        let ref_count = self.reference_group_count(group_type);
        let base = if ref_count >= min_target_count {
            ref_count
        } else {
            min_target_count
        };
        base + condition_target_value + difficulty_increase
    }
}

/// The number of placed tiles whose quest succeeded.
pub open spec fn fulfilled_count(ts: Seq<PlacedTile>) -> nat
    decreases ts.len(),
{
    if ts.len() == 0 {
        0
    } else {
        fulfilled_count(ts.drop_last()) + if ts.last().quest_status == Some(FulfillmentStatus::Success) {
            1nat
        } else {
            0nat
        }
    }
}

/// The base of a fresh quest's target on board `b`: the largest of the biggest open
/// group of its terrain on the board, the quest tile's own count (one segment for water
/// and tracks, its elements otherwise), and the prefab's minimum.
pub open spec fn quest_base(b: &Board, qd: QuestTileData) -> nat {
    let gt = spec_primary_group_type(qd.quest_type@);
    let on_table = max_ref_count(b.groups@, gt);
    let own: nat = match gt {
        GroupType::Water | GroupType::TrainTracks => 1,
        _ => spec_own_elements_for_group(qd.quest_type@, gt),
    };
    max_nat(max_nat(on_table, own), spec_min_target_count(qd.quest_type@))
}

/// A quest tile whose target is not set yet, once set from the condition `cond` drawn for
/// it and the difficulty increase `diff`; any other tile as it is.
pub open spec fn initialized_tile(t: GeneratedTile, base: nat, cond: (EqualityComparison, usize), diff: usize) -> GeneratedTile {
    match t {
        GeneratedTile::Quest { base_tile, quest_data } => if quest_data.target_count == 0 {
            GeneratedTile::Quest {
                base_tile,
                quest_data: QuestTileData {
                    target_count: (base + cond.1 + diff) as usize,
                    equality: cond.0,
                    level: 0,
                    ..quest_data
                },
            }
        } else {
            t
        },
        _ => t,
    }
}

/// A quest tile whose target is not set yet.
pub open spec fn is_unset_quest(t: GeneratedTile) -> bool {
    t matches GeneratedTile::Quest { quest_data, .. } && quest_data.target_count == 0
}

/// `m1` is `m0` with its level set to `level`.
pub open spec fn level_set(m0: QuestManager, m1: QuestManager, level: nat) -> bool {
    &&& m1.level == level
    &&& m1.active_quests == m0.active_quests
    &&& m1.next_quest_id == m0.next_quest_id
    &&& m1.upcoming_quest_counts == m0.upcoming_quest_counts
    &&& m1.last_computed_count == m0.last_computed_count
    &&& m1.prev_tile_was_quest == m0.prev_tile_was_quest
}

impl Board {
    /// The number of placed tiles whose quest succeeded.
    pub fn fulfilled_quest_count(&self) -> (r: usize)
        ensures
            r == fulfilled_count(self.placed_tiles@),
    {
        let mut n: usize = 0;
        let mut i: usize = 0;
        assert(self.placed_tiles@.take(0) =~= Seq::<PlacedTile>::empty());
        while i < self.placed_tiles.len()
            invariant
                i <= self.placed_tiles@.len(),
                n == fulfilled_count(self.placed_tiles@.take(i as int)),
                n <= i,
            decreases self.placed_tiles@.len() - i,
        {
            assert(self.placed_tiles@.take(i + 1).drop_last() =~= self.placed_tiles@.take(i as int));
            if self.placed_tiles[i].quest_status == Some(FulfillmentStatus::Success) {
                n += 1;
            }
            i += 1;
        }
        assert(self.placed_tiles@.take(self.placed_tiles@.len() as int) =~= self.placed_tiles@);
        n
    }
}

/// Sets the target of the quest on the tile at the top of the stack, when not set yet:
/// the base from the board, plus the drawn condition's value `condition.1` and the
/// difficulty increase `difficulty`; the comparison comes from the condition. The quest
/// manager's level becomes the number of quests fulfilled on the board.
pub fn initialize_active_quest_tile(
    front_tile: &mut GeneratedTile,
    game_board: &Board,
    quest_manager: &mut QuestManager,
    condition: (EqualityComparison, usize),
    difficulty: usize,
)
    requires
        game_board.wf(),
        tile_fits(*old(front_tile), 0),
        *old(front_tile) matches GeneratedTile::Quest { quest_data, .. } ==> quest_base(game_board, quest_data)
            + condition.1 + difficulty <= usize::MAX,
    ensures
        *final(front_tile) == initialized_tile(*old(front_tile), match *old(front_tile) {
            GeneratedTile::Quest { quest_data, .. } => quest_base(game_board, quest_data),
            _ => 0,
        }, condition, difficulty),
        is_unset_quest(*old(front_tile)) ==> level_set(*old(quest_manager), *final(quest_manager),
            fulfilled_count(game_board.placed_tiles@)),
        !is_unset_quest(*old(front_tile)) ==> *final(quest_manager) == *old(quest_manager),
{
    match front_tile {
        GeneratedTile::Quest { quest_data, .. } => {
            if quest_data.target_count == 0 {
                let gt = quest_data.primary_group_type();
                let board_ref_on_table = game_board.reference_group_count(gt);
                let tile_own_count = match gt {
                    GroupType::Water | GroupType::TrainTracks => 1,
                    _ => quest_data.own_elements_for_group(gt),
                };
                let board_ref = if board_ref_on_table >= tile_own_count {
                    board_ref_on_table
                } else {
                    tile_own_count
                };
                let min_target = get_quest_prefab_min_target_count(quest_data.quest_type.as_str());
                let fulfilled = game_board.fulfilled_quest_count();
                quest_manager.level = fulfilled;
                let base = if board_ref >= min_target {
                    board_ref
                } else {
                    min_target
                };
                quest_data.target_count = base + condition.1 + difficulty;
                quest_data.equality = condition.0;
                quest_data.level = 0;
            }
        },
        _ => {},
    }
}

} // verus!
