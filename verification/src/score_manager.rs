//! Scoring of placements: fitting edges, perfect placements, quest rewards, and the
//! stack of tiles left to play.
use vstd::prelude::*;
use crate::keyed::lemma_keyed_at;
use crate::tile::EdgeType;
use crate::board::{Board, coord_ok, neighbor_of, spec_opposite, edges_of, tile_ok, tile_key, get_neighbor_pos, opposite_direction};

verus! {

/// Whether two facing edges fit for scoring: equal kinds fit; a lake edge fits plain,
/// water and station edges; a station edge fits plain, water and track edges.
pub open spec fn spec_matching(a: EdgeType, b: EdgeType) -> bool {
    ||| a == b
    ||| a == EdgeType::FlexibleWater && (b == EdgeType::Plain || b == EdgeType::Water || b == EdgeType::WaterTrainStation)
    ||| b == EdgeType::FlexibleWater && (a == EdgeType::Plain || a == EdgeType::Water || a == EdgeType::WaterTrainStation)
    ||| a == EdgeType::WaterTrainStation && (b == EdgeType::Plain || b == EdgeType::Water || b == EdgeType::TrainTracks)
    ||| b == EdgeType::WaterTrainStation && (a == EdgeType::Plain || a == EdgeType::Water || a == EdgeType::TrainTracks)
}

/// Whether edges `a` and `b` fit for scoring.
pub fn is_matching_edge(a: EdgeType, b: EdgeType) -> (r: bool)
    ensures
        r == spec_matching(a, b),
{
    if a == b {
        return true;
    }
    match (a, b) {
        (EdgeType::FlexibleWater, EdgeType::Plain)
        | (EdgeType::FlexibleWater, EdgeType::Water)
        | (EdgeType::FlexibleWater, EdgeType::WaterTrainStation)
        | (EdgeType::Plain, EdgeType::FlexibleWater)
        | (EdgeType::Water, EdgeType::FlexibleWater)
        | (EdgeType::WaterTrainStation, EdgeType::FlexibleWater) => true,
        (EdgeType::WaterTrainStation, EdgeType::Plain)
        | (EdgeType::WaterTrainStation, EdgeType::Water)
        | (EdgeType::WaterTrainStation, EdgeType::TrainTracks)
        | (EdgeType::Plain, EdgeType::WaterTrainStation)
        | (EdgeType::Water, EdgeType::WaterTrainStation)
        | (EdgeType::TrainTracks, EdgeType::WaterTrainStation) => true,
        _ => false,
    }
}

/// The score of one placement, part by part.
#[derive(Debug, Clone, Copy, PartialEq, Eq, Structural)]
pub struct PlacementScoreBreakdown {
    /// Edges of the placed tile that fit their neighbour.
    pub matching_edges: usize,
    /// Points for fitting edges.
    pub fit_score: usize,
    /// Tiles that became perfect: the placed one and neighbours it completed.
    pub perfect_count: usize,
    /// Points for perfect tiles.
    pub perfect_score: usize,
    /// Bubble quests fulfilled.
    pub bubble_quests_completed: usize,
    /// Points for bubble quests.
    pub bubble_quest_score: usize,
    /// Flag quests fulfilled.
    pub flag_quests_completed: usize,
    /// Points for flag quests.
    pub flag_quest_score: usize,
    /// Points for closing terrain groups.
    pub group_completion_score: usize,
    /// All points of this placement.
    pub total_score_gained: usize,
    /// Tiles added to the stack.
    pub bonus_tiles_gained: usize,
}

/// A breakdown with every part zero.
pub open spec fn zero_breakdown() -> PlacementScoreBreakdown {
    PlacementScoreBreakdown {
        matching_edges: 0,
        fit_score: 0,
        perfect_count: 0,
        perfect_score: 0,
        bubble_quests_completed: 0,
        bubble_quest_score: 0,
        flag_quests_completed: 0,
        flag_quest_score: 0,
        group_completion_score: 0,
        total_score_gained: 0,
        bonus_tiles_gained: 0,
    }
}

impl Default for PlacementScoreBreakdown {
    fn default() -> (r: Self)
        ensures
            r == zero_breakdown(),
    {
        PlacementScoreBreakdown {
            matching_edges: 0,
            fit_score: 0,
            perfect_count: 0,
            perfect_score: 0,
            bubble_quests_completed: 0,
            bubble_quest_score: 0,
            flag_quests_completed: 0,
            flag_quest_score: 0,
            group_completion_score: 0,
            total_score_gained: 0,
            bonus_tiles_gained: 0,
        }
    }
}

/// The score and the tile stack of one game, with the scoring rules.
#[derive(Debug, Clone)]
pub struct ScoreManager {
    pub total_score: usize,
    pub placed_tiles_count: usize,
    pub perfect_count: usize,
    pub consecutive_perfects: usize,
    pub remaining_tiles: usize,
    pub is_game_over: bool,
    pub fit_score_per_edge: usize,
    pub perfect_placement_score: usize,
    pub perfect_placement_tile_reward: usize,
    pub quest_bubble_score: usize,
    pub quest_bubble_tile_reward: usize,
    pub quest_flag_score: usize,
}

/// A fresh game with a stack of `h` tiles and the standard rules: 10 points per fitting
/// edge, 60 points and one tile per perfect tile, 100 points and five tiles per bubble
/// quest, 50 points per flag quest.
pub open spec fn fresh_manager(h: usize) -> ScoreManager {
    ScoreManager {
        total_score: 0,
        placed_tiles_count: 0,
        perfect_count: 0,
        consecutive_perfects: 0,
        remaining_tiles: h,
        is_game_over: false,
        fit_score_per_edge: 10,
        perfect_placement_score: 60,
        perfect_placement_tile_reward: 1,
        quest_bubble_score: 100,
        quest_bubble_tile_reward: 5,
        quest_flag_score: 50,
    }
}

impl Default for ScoreManager {
    fn default() -> (r: Self)
        ensures
            r == fresh_manager(10),
    {
        ScoreManager::new(10)
    }
}

/// Around the tile at `p`, over directions below `n`: how many of its edges fit the
/// facing edge of a placed neighbour, and how many neighbours are placed.
pub open spec fn match_scan(b: &Board, p: (i32, i32), n: nat) -> (nat, nat)
    decreases n,
{
    if n == 0 {
        (0, 0)
    } else {
        let prev = match_scan(b, p, (n - 1) as nat);
        let d = (n - 1) as nat;
        let np = neighbor_of(p, d);
        if b.tiles().dom().contains(np) {
            let fits = spec_matching(edges_of(b.tiles()[p])[d as int], edges_of(b.tiles()[np])[spec_opposite(d) as int]);
            (if fits {
                prev.0 + 1
            } else {
                prev.0
            }, prev.1 + 1)
        } else {
            prev
        }
    }
}

/// The fitting edges and placed neighbours of the tile at `p`; both zero without a tile.
pub open spec fn match_counts(b: &Board, p: (i32, i32)) -> (nat, nat) {
    if b.tiles().dom().contains(p) {
        match_scan(b, p, 6)
    } else {
        (0, 0)
    }
}

/// A tile surrounded on all six sides with all six edges fitting.
pub open spec fn is_perfect(b: &Board, p: (i32, i32)) -> bool {
    match_counts(b, p) == (6nat, 6nat)
}

/// The perfect placed neighbours of `p` over directions below `n`.
pub open spec fn perfect_neighbors(b: &Board, p: (i32, i32), n: nat) -> nat
    decreases n,
{
    if n == 0 {
        0
    } else {
        let np = neighbor_of(p, (n - 1) as nat);
        perfect_neighbors(b, p, (n - 1) as nat) + if b.tiles().dom().contains(np) && is_perfect(b, np) {
            1nat
        } else {
            0nat
        }
    }
}

/// The perfect tiles a placement at `p` yields: the placed tile and its perfect neighbours.
pub open spec fn perfect_total(b: &Board, p: (i32, i32)) -> nat {
    (if is_perfect(b, p) {
        1nat
    } else {
        0nat
    }) + perfect_neighbors(b, p, 6)
}

/// The breakdown of a placement at `p` on board `b`, with `bubble` bubble quests and
/// `flag` flag quests fulfilled, under the rules of `sm`.
pub open spec fn spec_breakdown(sm: ScoreManager, b: &Board, p: (i32, i32), bubble: usize, flag: usize) -> PlacementScoreBreakdown {
    let m = match_counts(b, p).0;
    let pc = perfect_total(b, p);
    let fit = m * sm.fit_score_per_edge;
    let ps = pc * sm.perfect_placement_score;
    let bs = bubble * sm.quest_bubble_score;
    let fs = flag * sm.quest_flag_score;
    PlacementScoreBreakdown {
        matching_edges: m as usize,
        fit_score: fit as usize,
        perfect_count: pc as usize,
        perfect_score: ps as usize,
        bubble_quests_completed: bubble,
        bubble_quest_score: bs as usize,
        flag_quests_completed: flag,
        flag_quest_score: fs as usize,
        group_completion_score: 0,
        total_score_gained: (fit + ps + bs + fs) as usize,
        bonus_tiles_gained: (pc * sm.perfect_placement_tile_reward + bubble * sm.quest_bubble_tile_reward) as usize,
    }
}

/// The manager after scoring breakdown `bd`: one more tile placed, one tile less in the
/// stack (not below zero) plus the bonus tiles, the points added, the perfect tiles
/// counted (the streak grows with them and breaks without), and the game over when the
/// stack is empty.
pub open spec fn spec_after(sm: ScoreManager, bd: PlacementScoreBreakdown) -> ScoreManager {
    let rem = (if sm.remaining_tiles > 0 {
        sm.remaining_tiles - 1
    } else {
        0
    }) + bd.bonus_tiles_gained;
    ScoreManager {
        total_score: (sm.total_score + bd.total_score_gained) as usize,
        placed_tiles_count: (sm.placed_tiles_count + 1) as usize,
        perfect_count: (sm.perfect_count + bd.perfect_count) as usize,
        consecutive_perfects: if bd.perfect_count > 0 {
            (sm.consecutive_perfects + bd.perfect_count) as usize
        } else {
            0
        },
        remaining_tiles: rem as usize,
        is_game_over: rem == 0,
        ..sm
    }
}

/// All the sums and products of scoring a placement fit in a `usize`.
pub open spec fn scoring_fits(sm: ScoreManager, b: &Board, p: (i32, i32), bubble: usize, flag: usize) -> bool {
    let m = match_counts(b, p).0;
    let pc = perfect_total(b, p);
    let fit = m * sm.fit_score_per_edge;
    let ps = pc * sm.perfect_placement_score;
    let bs = bubble * sm.quest_bubble_score;
    let fs = flag * sm.quest_flag_score;
    let bonus = pc * sm.perfect_placement_tile_reward + bubble * sm.quest_bubble_tile_reward;
    &&& sm.placed_tiles_count + 1 <= usize::MAX
    &&& fit + ps + bs + fs <= usize::MAX
    &&& bonus <= usize::MAX
    &&& sm.total_score + fit + ps + bs + fs <= usize::MAX
    &&& sm.perfect_count + pc <= usize::MAX
    &&& sm.consecutive_perfects + pc <= usize::MAX
    &&& sm.remaining_tiles + bonus <= usize::MAX
}

/// The fitting count and placed-neighbour count grow by at most one per direction.
pub proof fn lemma_match_scan_bound(b: &Board, p: (i32, i32), n: nat)
    ensures
        match_scan(b, p, n).0 <= match_scan(b, p, n).1,
        match_scan(b, p, n).1 <= n,
    decreases n,
{
    if n > 0 {
        lemma_match_scan_bound(b, p, (n - 1) as nat);
    }
}

/// Perfect neighbours over directions below `n` are at most `n`.
pub proof fn lemma_perfect_neighbors_bound(b: &Board, p: (i32, i32), n: nat)
    ensures
        perfect_neighbors(b, p, n) <= n,
    decreases n,
{
    if n > 0 {
        lemma_perfect_neighbors_bound(b, p, (n - 1) as nat);
    }
}

impl ScoreManager {
    /// A fresh game with a stack of `initial_stack_height` tiles and the standard rules.
    pub fn new(initial_stack_height: usize) -> (r: Self)
        ensures
            r == fresh_manager(initial_stack_height),
    {
        ScoreManager {
            total_score: 0,
            placed_tiles_count: 0,
            perfect_count: 0,
            consecutive_perfects: 0,
            remaining_tiles: initial_stack_height,
            is_game_over: false,
            fit_score_per_edge: 10,
            perfect_placement_score: 60,
            perfect_placement_tile_reward: 1,
            quest_bubble_score: 100,
            quest_bubble_tile_reward: 5,
            quest_flag_score: 50,
        }
    }

    /// How many edges of the tile at `(q, r)` fit the facing edge of a placed neighbour,
    /// and how many of its neighbours are placed; both zero without a tile there.
    pub fn count_matching_edges(&self, board: &Board, q: i32, r: i32) -> (res: (usize, usize))
        requires
            board.wf(),
        ensures
            res.0 == match_counts(board, (q, r)).0,
            res.1 == match_counts(board, (q, r)).1,
    {
        let ti = match board.find_tile((q, r)) {
            Some(ti) => ti,
            None => return (0, 0),
        };
        proof {
            assert(tile_ok(board.placed_tiles@[ti as int]));
        }
        let mut matching: usize = 0;
        let mut closed_neighbors: usize = 0;
        let mut dir: usize = 0;
        while dir < 6
            invariant
                board.wf(),
                ti < board.placed_tiles@.len(),
                board.tiles().dom().contains((q, r)),
                board.tiles()[(q, r)] == board.placed_tiles@[ti as int],
                coord_ok(q),
                coord_ok(r),
                dir <= 6,
                matching == match_scan(board, (q, r), dir as nat).0,
                closed_neighbors == match_scan(board, (q, r), dir as nat).1,
                closed_neighbors <= dir,
                matching <= closed_neighbors,
            decreases 6 - dir,
        {
            let neighbor_pos = get_neighbor_pos(q, r, dir);
            assert(neighbor_pos == neighbor_of((q, r), dir as nat));
            match board.find_tile(neighbor_pos) {
                Some(ni) => {
                    closed_neighbors += 1;
                    let my_edge = board.placed_tiles[ti].edge_config.edges[dir];
                    let neighbor_edge = board.placed_tiles[ni].edge_config.edges[opposite_direction(dir)];
                    if is_matching_edge(my_edge, neighbor_edge) {
                        matching += 1;
                    }
                },
                None => {},
            }
            dir += 1;
        }
        (matching, closed_neighbors)
    }

    /// Scores a placement at `(placed_q, placed_r)` with the quests it fulfilled and
    /// updates the score, the perfect streak and the stack; nothing happens once the game
    /// is over.
    pub fn on_tile_placed(
        &mut self,
        board: &Board,
        placed_q: i32,
        placed_r: i32,
        bubble_quests_completed: usize,
        flag_quests_completed: usize,
    ) -> (bd: PlacementScoreBreakdown)
        requires
            board.wf(),
            coord_ok(placed_q),
            coord_ok(placed_r),
            !old(self).is_game_over ==> scoring_fits(
                *old(self),
                board,
                (placed_q, placed_r),
                bubble_quests_completed,
                flag_quests_completed,
            ),
        ensures
            old(self).is_game_over ==> bd == zero_breakdown() && *final(self) == *old(self),
            !old(self).is_game_over ==> bd == spec_breakdown(
                *old(self),
                board,
                (placed_q, placed_r),
                bubble_quests_completed,
                flag_quests_completed,
            ) && *final(self) == spec_after(*old(self), bd),
    {
        let mut breakdown = PlacementScoreBreakdown::default();
        if self.is_game_over {
            return breakdown;
        }
        let ghost p = (placed_q, placed_r);
        let ghost pc_total = perfect_total(board, p);
        proof {
            lemma_perfect_neighbors_bound(board, p, 6);
            lemma_match_scan_bound(board, p, 6);
        }
        self.placed_tiles_count += 1;
        if self.remaining_tiles > 0 {
            self.remaining_tiles -= 1;
        }
        let (matching_edges, closed_neighbors) = self.count_matching_edges(board, placed_q, placed_r);
        breakdown.matching_edges = matching_edges;
        if matching_edges > 0 {
            breakdown.fit_score = matching_edges * self.fit_score_per_edge;
        }
        if closed_neighbors == 6 && matching_edges == 6 {
            breakdown.perfect_count += 1;
            breakdown.perfect_score += self.perfect_placement_score;
            breakdown.bonus_tiles_gained += self.perfect_placement_tile_reward;
        }
        let ghost first: nat = if is_perfect(board, p) {
            1nat
        } else {
            0nat
        };
        assert(breakdown.perfect_count == first);
        let mut dir: usize = 0;
        while dir < 6
            invariant
                board.wf(),
                coord_ok(placed_q),
                coord_ok(placed_r),
                p == (placed_q, placed_r),
                dir <= 6,
                pc_total == first + perfect_neighbors(board, p, 6),
                first <= 1,
                perfect_neighbors(board, p, 6) <= 6,
                breakdown.perfect_count == first + perfect_neighbors(board, p, dir as nat),
                breakdown.perfect_score == breakdown.perfect_count * self.perfect_placement_score,
                breakdown.bonus_tiles_gained == breakdown.perfect_count * self.perfect_placement_tile_reward,
                pc_total * self.perfect_placement_score <= usize::MAX,
                pc_total * self.perfect_placement_tile_reward <= usize::MAX,
                breakdown.matching_edges == matching_edges,
                breakdown.fit_score == matching_edges * self.fit_score_per_edge,
                breakdown.bubble_quests_completed == 0,
                breakdown.bubble_quest_score == 0,
                breakdown.flag_quests_completed == 0,
                breakdown.flag_quest_score == 0,
                breakdown.group_completion_score == 0,
                breakdown.total_score_gained == 0,
            decreases 6 - dir,
        {
            let neighbor_pos = get_neighbor_pos(placed_q, placed_r, dir);
            assert(neighbor_pos == neighbor_of(p, dir as nat));
            proof {
                lemma_perfect_neighbors_bound(board, p, (dir + 1) as nat);
                lemma_perfect_mono(board, p, (dir + 1) as nat, 6);
            }
            match board.find_tile(neighbor_pos) {
                Some(_) => {
                    let (n_matching, n_closed) = self.count_matching_edges(board, neighbor_pos.0, neighbor_pos.1);
                    if n_closed == 6 && n_matching == 6 {
                        let ghost k = breakdown.perfect_count as int;
                        let ghost s1 = self.perfect_placement_score as int;
                        let ghost s2 = self.perfect_placement_tile_reward as int;
                        assert(k + 1 <= pc_total);
                        assert((k + 1) * s1 <= pc_total * s1 && (k + 1) * s1 == k * s1 + s1) by (nonlinear_arith)
                            requires
                                k + 1 <= pc_total,
                                0 <= s1,
                        ;
                        assert((k + 1) * s2 <= pc_total * s2 && (k + 1) * s2 == k * s2 + s2) by (nonlinear_arith)
                            requires
                                k + 1 <= pc_total,
                                0 <= s2,
                        ;
                        breakdown.perfect_count += 1;
                        breakdown.perfect_score += self.perfect_placement_score;
                        breakdown.bonus_tiles_gained += self.perfect_placement_tile_reward;
                    }
                },
                None => {},
            }
            dir += 1;
        }
        if bubble_quests_completed > 0 {
            breakdown.bubble_quests_completed = bubble_quests_completed;
            breakdown.bubble_quest_score = bubble_quests_completed * self.quest_bubble_score;
            breakdown.bonus_tiles_gained += bubble_quests_completed * self.quest_bubble_tile_reward;
        }
        if flag_quests_completed > 0 {
            breakdown.flag_quests_completed = flag_quests_completed;
            breakdown.flag_quest_score = flag_quests_completed * self.quest_flag_score;
        }
        breakdown.total_score_gained = breakdown.fit_score + breakdown.perfect_score + breakdown.bubble_quest_score
            + breakdown.flag_quest_score + breakdown.group_completion_score;
        self.total_score += breakdown.total_score_gained;
        self.perfect_count += breakdown.perfect_count;
        if breakdown.perfect_count > 0 {
            self.consecutive_perfects += breakdown.perfect_count;
        } else {
            self.consecutive_perfects = 0;
        }
        self.remaining_tiles += breakdown.bonus_tiles_gained;
        if self.remaining_tiles == 0 {
            self.is_game_over = true;
        }
        breakdown
    }
}

/// Perfect neighbours over fewer directions are no more.
pub proof fn lemma_perfect_mono(b: &Board, p: (i32, i32), m: nat, n: nat)
    requires
        m <= n,
    ensures
        perfect_neighbors(b, p, m) <= perfect_neighbors(b, p, n),
    decreases n,
{
    if m < n {
        lemma_perfect_mono(b, p, m, (n - 1) as nat);
    }
}

} // verus!
