//! The board: placed tiles on an offset hex grid, and the connected terrain groups
//! that form as segments of the same terrain meet across edges.
use vstd::prelude::*;
use crate::game_config::GroupType;
use crate::quest_manager::{QuestManager, ActiveQuest, other_than, next_count};
use crate::keyed::{
    keyed, distinct_keys, lemma_keyed_dom, lemma_keyed_at, lemma_keyed_distinct_at, lemma_keyed_update,
    lemma_keyed_remove, lemma_keyed_push_distinct, lemma_keyed_map_values, lemma_keyed_value_key, lemma_keyed_len,
};
use crate::tile::{
    GeneratedTile, HexEdgeConfig, EdgeType, EqualityComparison, TileSegmentData, SegModel, spec_hex_edges,
    rotated, tile_fits, spec_segments, seg_model, spec_compatible, spec_group_of_edge, spec_tile_element_count,
    tile_element_count, spec_primary_group_type, spec_remaining_display,
};

verus! {

/// How far a quest has come.
#[derive(Debug, Clone, Copy, PartialEq, Eq, Structural)]
pub enum FulfillmentStatus {
    Incomplete,
    Success,
    Failed,
}

/// A tile placed on the board at column `q`, row `r`, turned by `rotation`.
#[derive(Debug, Clone)]
pub struct PlacedTile {
    pub q: i32,
    pub r: i32,
    pub tile: GeneratedTile,
    pub rotation: usize,
    pub edge_config: HexEdgeConfig,
    /// The status of the quest on this tile, for a quest tile.
    pub quest_status: Option<FulfillmentStatus>,
    /// Whether the quest has been decided and is no longer watched.
    pub quest_finalized: bool,
    /// The id under which a quest manager registered this quest.
    pub quest_id: Option<usize>,
}

/// A connected group of same-terrain segments on the board.
#[derive(Debug, Clone)]
pub struct ElementGroup {
    pub id: usize,
    pub group_type: GroupType,
    pub total_element_count: usize,
    pub total_segment_count: usize,
    pub member_tiles: Vec<(i32, i32)>,
    pub is_closed: bool,
}

/// A link from a tile edge (position and direction) to the id of the group it belongs to.
pub type EdgeEntry = (((i32, i32), usize), usize);

/// The board with its tiles, groups and edge links. Each list holds one entry per key
/// (position, group id, edge).
#[derive(Debug, Clone)]
pub struct Board {
    pub placed_tiles: Vec<PlacedTile>,
    pub groups: Vec<ElementGroup>,
    pub edge_to_group: Vec<EdgeEntry>,
    pub next_group_id: usize,
}

/// A coordinate whose neighbours are representable.
pub open spec fn coord_ok(x: i32) -> bool {
    i32::MIN < x && x < i32::MAX
}

/// Column offset of direction `d` (0 north, then clockwise) from an even or odd column.
pub open spec fn dir_dq(d: nat) -> int {
    if d == 1 || d == 2 {
        1
    } else if d == 4 || d == 5 {
        -1
    } else {
        0
    }
}

/// Row offset of direction `d` from an even (`even`) or odd column.
pub open spec fn dir_dr(even: bool, d: nat) -> int {
    if even {
        if d == 0 || d == 1 || d == 5 {
            1
        } else if d == 3 {
            -1
        } else {
            0
        }
    } else {
        if d == 0 {
            1
        } else if d == 2 || d == 3 || d == 4 {
            -1
        } else {
            0
        }
    }
}

/// The neighbour of `(q, r)` across direction `dir` (taken modulo six).
pub open spec fn spec_neighbor(q: i32, r: i32, dir: nat) -> (i32, i32) {
    let d = dir % 6;
    ((q + dir_dq(d)) as i32, (r + dir_dr(q % 2 == 0, d)) as i32)
}

/// The neighbour of a position across direction `dir`.
pub open spec fn neighbor_of(p: (i32, i32), dir: nat) -> (i32, i32) {
    spec_neighbor(p.0, p.1, dir)
}

/// The direction opposite `dir`.
pub open spec fn spec_opposite(dir: nat) -> nat {
    (dir + 3) % 6
}

/// The neighbour of `(q, r)` across direction `dir`, on the grid whose even and odd
/// columns are offset by half a row.
pub fn get_neighbor_pos(q: i32, r: i32, dir: usize) -> (p: (i32, i32))
    requires
        coord_ok(q),
        coord_ok(r),
    ensures
        p == spec_neighbor(q, r, dir as nat),
        p.0 == q + dir_dq((dir % 6) as nat),
        p.1 == r + dir_dr(q % 2 == 0, (dir % 6) as nat),
{
    let d = dir % 6;
    let even = q % 2 == 0;
    let dq: i32 = if d == 1 || d == 2 {
        1
    } else if d == 4 || d == 5 {
        -1
    } else {
        0
    };
    let dr: i32 = if even {
        if d == 0 || d == 1 || d == 5 {
            1
        } else if d == 3 {
            -1
        } else {
            0
        }
    } else {
        if d == 0 {
            1
        } else if d == 2 || d == 3 || d == 4 {
            -1
        } else {
            0
        }
    };
    (q + dq, r + dr)
}

/// The direction opposite `dir` (0 and 3, 1 and 4, 2 and 5).
pub fn opposite_direction(dir: usize) -> (r: usize)
    requires
        dir + 3 <= usize::MAX,
    ensures
        r == spec_opposite(dir as nat),
{
    (dir + 3) % 6
}

/// Key of a placed tile: its position.
pub open spec fn tile_key() -> spec_fn(PlacedTile) -> (i32, i32) {
    |t: PlacedTile| (t.q, t.r)
}

/// Key of a group: its id.
pub open spec fn group_key() -> spec_fn(ElementGroup) -> usize {
    |g: ElementGroup| g.id
}

/// Key of an edge link: the edge.
pub open spec fn link_key() -> spec_fn(EdgeEntry) -> ((i32, i32), usize) {
    |e: EdgeEntry| e.0
}

/// The count a group contributes for terrain `gt`: elements for forest, village and
/// agriculture, segments for tracks and water.
pub open spec fn ref_count(g: ElementGroup, gt: GroupType) -> nat {
    match gt {
        GroupType::Forest | GroupType::Village | GroupType::Agriculture => g.total_element_count as nat,
        _ => g.total_segment_count as nat,
    }
}

/// The sum of the element counts of the groups.
pub open spec fn sum_elements(gs: Seq<ElementGroup>) -> nat
    decreases gs.len(),
{
    if gs.len() == 0 {
        0
    } else {
        sum_elements(gs.drop_last()) + gs.last().total_element_count as nat
    }
}

/// The sum of the segment counts of the groups.
pub open spec fn sum_segments(gs: Seq<ElementGroup>) -> nat
    decreases gs.len(),
{
    if gs.len() == 0 {
        0
    } else {
        sum_segments(gs.drop_last()) + gs.last().total_segment_count as nat
    }
}

/// The edge kinds of a placed tile as a sequence.
pub open spec fn edges_of(t: PlacedTile) -> Seq<EdgeType> {
    t.edge_config.edges@
}

impl Board {
    /// The placed tiles by position.
    pub open spec fn tiles(&self) -> Map<(i32, i32), PlacedTile> {
        keyed(self.placed_tiles@, tile_key())
    }

    /// The groups by id.
    pub open spec fn group_map(&self) -> Map<usize, ElementGroup> {
        keyed(self.groups@, group_key())
    }

    /// The edge links by edge.
    pub open spec fn links(&self) -> Map<((i32, i32), usize), EdgeEntry> {
        keyed(self.edge_to_group@, link_key())
    }

    /// The board's consistency: keys never repeat; tiles lie on representable
    /// coordinates and show their tile's edges turned by their rotation; group ids are
    /// positive and below the next id; groups hold placed tiles without repetition;
    /// links join placed edges to existing groups; the counts of all groups together
    /// fit in a `usize`.
    pub open spec fn wf(&self) -> bool {
        &&& distinct_keys(self.placed_tiles@, tile_key())
        &&& distinct_keys(self.groups@, group_key())
        &&& distinct_keys(self.edge_to_group@, link_key())
        &&& forall|i: int| 0 <= i < self.placed_tiles@.len() ==> #[trigger] tile_ok(self.placed_tiles@[i])
        &&& forall|id: usize| #[trigger] self.group_map().dom().contains(id) ==> group_ok(self, id)
        &&& forall|k: ((i32, i32), usize)| #[trigger] self.links().dom().contains(k) ==> link_ok(self, k)
        &&& sum_elements(self.groups@) <= usize::MAX
        &&& sum_segments(self.groups@) <= usize::MAX
        &&& 1 <= self.next_group_id
        &&& self.placed_tiles@.len() * 6 <= usize::MAX
    }
}

/// A group with a positive id below the next id, whose members are placed tiles
/// listed once each.
pub open spec fn group_ok(b: &Board, id: usize) -> bool {
    let g = b.group_map()[id];
    &&& 1 <= id < b.next_group_id
    &&& g.id == id
    &&& g.member_tiles@.no_duplicates()
    &&& forall|k: int| 0 <= k < g.member_tiles@.len() ==> b.tiles().dom().contains(#[trigger] g.member_tiles@[k])
}

/// A link from an edge (direction below six) of a placed tile to an existing group.
pub open spec fn link_ok(b: &Board, k: ((i32, i32), usize)) -> bool {
    &&& k.1 < 6
    &&& b.tiles().dom().contains(k.0)
    &&& b.links()[k].0 == k
    &&& b.group_map().dom().contains(b.links()[k].1)
}

/// A placed tile on representable coordinates showing its tile's edges turned by its
/// rotation, with machine-sized computations on it; a quest marked final has succeeded
/// or failed.
pub open spec fn tile_ok(t: PlacedTile) -> bool {
    &&& coord_ok(t.q)
    &&& coord_ok(t.r)
    &&& t.edge_config.edges@ == rotated(spec_hex_edges(t.tile), t.rotation as nat)
    &&& tile_fits(t.tile, t.rotation as nat)
    &&& t.rotation + 10 <= usize::MAX
    &&& t.quest_finalized ==> t.quest_status is Some && t.quest_status != Some(FulfillmentStatus::Incomplete)
}


/// The ids of the groups that the edges of terrain `gt` of the tile at `pos` belong to,
/// looking at directions `0..n`, each id once, in the order first met.
pub open spec fn tile_group_ids(b: &Board, pos: (i32, i32), gt: GroupType, n: nat) -> Seq<usize>
    decreases n,
{
    if n == 0 {
        Seq::<usize>::empty()
    } else {
        let prev = tile_group_ids(b, pos, gt, (n - 1) as nat);
        let d = (n - 1) as usize;
        if b.tiles().dom().contains(pos) && spec_group_of_edge(edges_of(b.tiles()[pos])[d as int]) == Some(gt)
            && b.links().dom().contains((pos, d)) && !prev.contains(b.links()[(pos, d)].1) {
            prev.push(b.links()[(pos, d)].1)
        } else {
            prev
        }
    }
}

/// Whether group `gid` holds an edge of terrain `gt` of the tile at `pos` in a direction below `n`.
pub open spec fn tile_touches_group(b: &Board, pos: (i32, i32), gt: GroupType, n: nat, gid: usize) -> bool {
    exists|d: usize| d < n && b.tiles().dom().contains(pos) && spec_group_of_edge(edges_of(b.tiles()[pos])[d as int]) == Some(gt)
        && #[trigger] b.links().dom().contains((pos, d)) && b.links()[(pos, d)].1 == gid
}

/// The ids listed by `tile_group_ids` are distinct and are exactly the groups touched.
pub proof fn lemma_tile_group_ids(b: &Board, pos: (i32, i32), gt: GroupType, n: nat)
    ensures
        tile_group_ids(b, pos, gt, n).no_duplicates(),
        forall|gid: usize| #[trigger] tile_group_ids(b, pos, gt, n).contains(gid) <==> tile_touches_group(b, pos, gt, n, gid),
    decreases n,
{
    if n > 0 {
        lemma_tile_group_ids(b, pos, gt, (n - 1) as nat);
        let prev = tile_group_ids(b, pos, gt, (n - 1) as nat);
        let cur = tile_group_ids(b, pos, gt, n);
        let d = (n - 1) as usize;
        assert forall|gid: usize| #[trigger] cur.contains(gid) <==> tile_touches_group(b, pos, gt, n, gid) by {
            if cur.contains(gid) {
                if prev.contains(gid) {
                    let w = choose|w: usize| w < (n - 1) as nat && b.tiles().dom().contains(pos)
                        && spec_group_of_edge(edges_of(b.tiles()[pos])[w as int]) == Some(gt)
                        && #[trigger] b.links().dom().contains((pos, w)) && b.links()[(pos, w)].1 == gid;
                    assert(b.links().dom().contains((pos, w)));
                } else {
                    let k = choose|k: int| 0 <= k < cur.len() && cur[k] == gid;
                    assert(k == prev.len());
                    assert(b.links().dom().contains((pos, d)));
                }
            }
            if tile_touches_group(b, pos, gt, n, gid) {
                let w = choose|w: usize| w < n && b.tiles().dom().contains(pos)
                    && spec_group_of_edge(edges_of(b.tiles()[pos])[w as int]) == Some(gt)
                    && #[trigger] b.links().dom().contains((pos, w)) && b.links()[(pos, w)].1 == gid;
                if w < d {
                    assert(b.links().dom().contains((pos, w)));
                    assert(prev.contains(gid));
                    let k = choose|k: int| 0 <= k < prev.len() && prev[k] == gid;
                    assert(cur[k] == gid);
                } else {
                    if !prev.contains(gid) {
                        assert(cur[cur.len() - 1] == gid);
                    } else {
                        let k = choose|k: int| 0 <= k < prev.len() && prev[k] == gid;
                        assert(cur[k] == gid);
                    }
                }
            }
        }
    }
}

/// The largest count for terrain `gt` among the open groups of that terrain, or 0.
pub open spec fn max_ref_count(gs: Seq<ElementGroup>, gt: GroupType) -> nat
    decreases gs.len(),
{
    if gs.len() == 0 {
        0
    } else {
        let prev = max_ref_count(gs.drop_last(), gt);
        let g = gs.last();
        if g.group_type == gt && !g.is_closed && ref_count(g, gt) > prev {
            ref_count(g, gt)
        } else {
            prev
        }
    }
}

/// Placement rule: the position is free; unless the board is empty or it is the
/// centre, it touches a placed tile; and every edge of the turned tile is compatible
/// with the facing edge of each placed neighbour.
pub open spec fn spec_can_place(b: &Board, q: i32, r: i32, tile: GeneratedTile, rot: nat) -> bool {
    let cfg = rotated(spec_hex_edges(tile), rot);
    &&& !b.tiles().dom().contains((q, r))
    &&& (b.placed_tiles@.len() == 0 || (q == 0 && r == 0) || exists|d: nat| d < 6 && b.tiles().dom().contains(
        #[trigger] spec_neighbor(q, r, d),
    ))
    &&& forall|d: nat| d < 6 && b.tiles().dom().contains(#[trigger] spec_neighbor(q, r, d)) ==> spec_compatible(
        cfg[d as int],
        edges_of(b.tiles()[spec_neighbor(q, r, d)])[spec_opposite(d) as int],
    )
}

impl Default for Board {
    /// An empty board.
    fn default() -> (b: Self)
        ensures
            b.wf(),
            b.placed_tiles@.len() == 0,
            b.groups@.len() == 0,
            b.edge_to_group@.len() == 0,
            b.next_group_id == 1,
            tallied(&b),
    {
        Board::new()
    }
}

impl Board {
    /// An empty board.
    pub fn new() -> (b: Self)
        ensures
            b.wf(),
            b.placed_tiles@.len() == 0,
            b.groups@.len() == 0,
            b.edge_to_group@.len() == 0,
            b.tiles() == Map::<(i32, i32), PlacedTile>::empty(),
            b.next_group_id == 1,
            tallied(&b),
    {
        let b = Board { placed_tiles: Vec::new(), groups: Vec::new(), edge_to_group: Vec::new(), next_group_id: 1 };
        assert(b.tiles() =~= Map::<(i32, i32), PlacedTile>::empty());
        b
    }

    /// The index of the tile at `pos`, if one is placed there.
    pub fn find_tile(&self, pos: (i32, i32)) -> (r: Option<usize>)
        requires
            distinct_keys(self.placed_tiles@, tile_key()),
        ensures
            r matches Some(i) ==> i < self.placed_tiles@.len() && self.tiles().dom().contains(pos)
                && self.tiles()[pos] == self.placed_tiles@[i as int] && self.placed_tiles@[i as int].q == pos.0
                && self.placed_tiles@[i as int].r == pos.1,
            r is None ==> !self.tiles().dom().contains(pos),
    {
        let mut i = self.placed_tiles.len();
        while i > 0
            invariant
                i <= self.placed_tiles@.len(),
                forall|j: int| i <= j < self.placed_tiles@.len() ==> (#[trigger] self.placed_tiles@[j].q, self.placed_tiles@[j].r) != pos,
            decreases i,
        {
            i -= 1;
            if self.placed_tiles[i].q == pos.0 && self.placed_tiles[i].r == pos.1 {
                proof {
                    lemma_keyed_at(self.placed_tiles@, tile_key(), i as int);
                }
                return Some(i);
            }
        }
        proof {
            lemma_keyed_dom(self.placed_tiles@, tile_key(), pos);
        }
        None
    }

    /// The index of the group with id `id`, if there is one.
    pub fn find_group(&self, id: usize) -> (r: Option<usize>)
        requires
            distinct_keys(self.groups@, group_key()),
        ensures
            r matches Some(i) ==> i < self.groups@.len() && self.group_map().dom().contains(id)
                && self.group_map()[id] == self.groups@[i as int] && self.groups@[i as int].id == id,
            r is None ==> !self.group_map().dom().contains(id),
    {
        let mut i = self.groups.len();
        while i > 0
            invariant
                i <= self.groups@.len(),
                forall|j: int| i <= j < self.groups@.len() ==> #[trigger] self.groups@[j].id != id,
            decreases i,
        {
            i -= 1;
            if self.groups[i].id == id {
                proof {
                    lemma_keyed_at(self.groups@, group_key(), i as int);
                }
                return Some(i);
            }
        }
        proof {
            lemma_keyed_dom(self.groups@, group_key(), id);
        }
        None
    }

    /// The group id linked to the edge `(pos, dir)`, if there is one.
    pub fn find_link(&self, pos: (i32, i32), dir: usize) -> (r: Option<usize>)
        requires
            distinct_keys(self.edge_to_group@, link_key()),
        ensures
            r matches Some(g) ==> self.links().dom().contains((pos, dir)) && self.links()[(pos, dir)].1 == g,
            r is None ==> !self.links().dom().contains((pos, dir)),
    {
        let mut i = self.edge_to_group.len();
        while i > 0
            invariant
                i <= self.edge_to_group@.len(),
                forall|j: int| i <= j < self.edge_to_group@.len() ==> #[trigger] self.edge_to_group@[j].0 != (pos, dir),
            decreases i,
        {
            i -= 1;
            let e = self.edge_to_group[i];
            if e.0.0.0 == pos.0 && e.0.0.1 == pos.1 && e.0.1 == dir {
                proof {
                    lemma_keyed_at(self.edge_to_group@, link_key(), i as int);
                    assert(self.edge_to_group@[i as int].0 == (pos, dir));
                }
                return Some(e.1);
            }
        }
        proof {
            lemma_keyed_dom(self.edge_to_group@, link_key(), (pos, dir));
        }
        None
    }

    /// The distinct ids of the groups holding the edges of terrain `group_type` of the
    /// tile at `pos` (none when no tile is there).
    pub fn get_group_ids_for_tile(&self, pos: (i32, i32), group_type: GroupType) -> (r: Vec<usize>)
        requires
            self.wf(),
        ensures
            r@ == tile_group_ids(self, pos, group_type, 6),
            r@.no_duplicates(),
            forall|gid: usize| #[trigger] r@.contains(gid) <==> tile_touches_group(self, pos, group_type, 6, gid),
    {
        let mut set: Vec<usize> = Vec::new();
        proof {
            lemma_tile_group_ids(self, pos, group_type, 6);
        }
        match self.find_tile(pos) {
            None => {
                assert forall|n: nat| n <= 6 implies tile_group_ids(self, pos, group_type, n) == Seq::<usize>::empty() by {
                    lemma_no_tile_no_ids(self, pos, group_type, n);
                }
                return set;
            },
            Some(ti) => {
                let mut dir: usize = 0;
                while dir < 6
                    invariant
                        self.wf(),
                        ti < self.placed_tiles@.len(),
                        self.tiles().dom().contains(pos),
                        self.tiles()[pos] == self.placed_tiles@[ti as int],
                        dir <= 6,
                        set@ == tile_group_ids(self, pos, group_type, dir as nat),
                    decreases 6 - dir,
                {
                    if self.placed_tiles[ti].edge_config.edges[dir].to_group_type() == Some(group_type) {
                        match self.find_link(pos, dir) {
                            Some(gid) => {
                                if !vec_contains(&set, gid) {
                                    set.push(gid);
                                }
                            },
                            None => {},
                        }
                    }
                    dir += 1;
                }
            },
        }
        set
    }

    /// The largest count of an open group of terrain `group_type`: elements for forest,
    /// village and agriculture, segments for tracks and water; 0 without such a group.
    pub fn reference_group_count(&self, group_type: GroupType) -> (r: usize)
        requires
            self.wf(),
        ensures
            r == max_ref_count(self.groups@, group_type),
    {
        let mut max_count: usize = 0;
        let mut i: usize = 0;
        assert(self.groups@.take(0) =~= Seq::<ElementGroup>::empty());
        while i < self.groups.len()
            invariant
                i <= self.groups@.len(),
                max_count == max_ref_count(self.groups@.take(i as int), group_type),
            decreases self.groups@.len() - i,
        {
            let group = &self.groups[i];
            assert(self.groups@.take(i + 1).drop_last() =~= self.groups@.take(i as int));
            if group.group_type == group_type && !group.is_closed {
                let count = match group_type {
                    GroupType::Forest | GroupType::Village | GroupType::Agriculture => group.total_element_count,
                    _ => group.total_segment_count,
                };
                if count > max_count {
                    max_count = count;
                }
            }
            i += 1;
        }
        assert(self.groups@.take(self.groups@.len() as int) =~= self.groups@);
        max_count
    }

    /// Whether `tile` turned by `rotation` may be placed at `(q, r)`.
    pub fn can_place_tile(&self, q: i32, r: i32, tile: &GeneratedTile, rotation: usize) -> (ok: bool)
        requires
            self.wf(),
            coord_ok(q),
            coord_ok(r),
        ensures
            ok == spec_can_place(self, q, r, *tile, rotation as nat),
    {
        if self.find_tile((q, r)).is_some() {
            return false;
        }
        if self.placed_tiles.len() > 0 && (q != 0 || r != 0) {
            let mut has_neighbor = false;
            let mut dir: usize = 0;
            while dir < 6
                invariant
                    self.wf(),
                    coord_ok(q),
                    coord_ok(r),
                    dir <= 6,
                    has_neighbor <==> exists|d: nat| d < dir && self.tiles().dom().contains(#[trigger] spec_neighbor(q, r, d)),
                decreases 6 - dir,
            {
                let n_pos = get_neighbor_pos(q, r, dir);
                if self.find_tile(n_pos).is_some() {
                    has_neighbor = true;
                }
                dir += 1;
            }
            if !has_neighbor {
                return false;
            }
        }
        let mut cfg = tile.to_hex_edge_config();
        cfg.rotate(rotation);
        let mut dir: usize = 0;
        while dir < 6
            invariant
                self.wf(),
                coord_ok(q),
                coord_ok(r),
                dir <= 6,
                cfg.edges@ == rotated(spec_hex_edges(*tile), rotation as nat),
                forall|d: nat| d < dir && self.tiles().dom().contains(#[trigger] spec_neighbor(q, r, d)) ==> spec_compatible(
                    rotated(spec_hex_edges(*tile), rotation as nat)[d as int],
                    edges_of(self.tiles()[spec_neighbor(q, r, d)])[spec_opposite(d) as int],
                ),
            decreases 6 - dir,
        {
            let neighbor_pos = get_neighbor_pos(q, r, dir);
            match self.find_tile(neighbor_pos) {
                Some(ni) => {
                    let my_edge = cfg.edges[dir];
                    let neighbor_edge = self.placed_tiles[ni].edge_config.edges[opposite_direction(dir)];
                    if !my_edge.is_compatible_with(neighbor_edge) {
                        return false;
                    }
                },
                None => {},
            }
            dir += 1;
        }
        true
    }
}

/// Without a tile at `pos` no group ids are found there.
pub proof fn lemma_no_tile_no_ids(b: &Board, pos: (i32, i32), gt: GroupType, n: nat)
    requires
        !b.tiles().dom().contains(pos),
    ensures
        tile_group_ids(b, pos, gt, n) == Seq::<usize>::empty(),
    decreases n,
{
    if n > 0 {
        lemma_no_tile_no_ids(b, pos, gt, (n - 1) as nat);
    }
}

/// Whether `x` is in `v`.
pub fn vec_contains(v: &Vec<usize>, x: usize) -> (r: bool)
    ensures
        r == v@.contains(x),
{
    let mut i: usize = 0;
    while i < v.len()
        invariant
            i <= v.len(),
            forall|j: int| 0 <= j < i ==> v@[j] != x,
        decreases v.len() - i,
    {
        if v[i] == x {
            return true;
        }
        i += 1;
    }
    false
}

/// A group as plain values: terrain, element and segment totals, member positions, closed flag.
pub struct GroupView {
    pub group_type: GroupType,
    pub elements: nat,
    pub segments: nat,
    pub members: Set<(i32, i32)>,
    pub closed: bool,
}

/// The plain-value view of a group.
pub open spec fn group_view(g: ElementGroup) -> GroupView {
    GroupView {
        group_type: g.group_type,
        elements: g.total_element_count as nat,
        segments: g.total_segment_count as nat,
        members: g.member_tiles@.to_set(),
        closed: g.is_closed,
    }
}

/// The grouping state of a board: groups by id, the group id of each linked edge, and
/// the id the next new group receives.
pub struct GroupState {
    pub groups: Map<usize, GroupView>,
    pub links: Map<((i32, i32), usize), usize>,
    pub next_id: nat,
}

impl Board {
    /// The grouping state of this board.
    pub open spec fn state(&self) -> GroupState {
        GroupState {
            groups: self.group_map().map_values(|g: ElementGroup| group_view(g)),
            links: self.links().map_values(|e: EdgeEntry| e.1),
            next_id: self.next_group_id as nat,
        }
    }
}

/// The ids of the groups a new segment of terrain `gt` touches, in the order of its
/// edges: for each edge whose turned edge and whose neighbour's facing edge both belong
/// to `gt`, the group linked to that facing edge, each id once.
pub open spec fn connected_ids(
    tiles: Map<(i32, i32), PlacedTile>,
    links: Map<((i32, i32), usize), usize>,
    pos: (i32, i32),
    cfg: Seq<EdgeType>,
    gt: GroupType,
    edges: Seq<usize>,
) -> Seq<usize>
    decreases edges.len(),
{
    if edges.len() == 0 {
        Seq::<usize>::empty()
    } else {
        let prev = connected_ids(tiles, links, pos, cfg, gt, edges.drop_last());
        let d = edges.last();
        let n = neighbor_of(pos, d as nat);
        let nd = spec_opposite(d as nat) as usize;
        if tiles.dom().contains(n) && spec_group_of_edge(cfg[d as int]) == Some(gt) && spec_group_of_edge(
            edges_of(tiles[n])[nd as int],
        ) == Some(gt) && links.dom().contains((n, nd)) && !prev.contains(links[(n, nd)]) {
            prev.push(links[(n, nd)])
        } else {
            prev
        }
    }
}

/// `links` with each edge `(pos, edges[k])` linked to `gid`.
pub open spec fn add_links(links: Map<((i32, i32), usize), usize>, pos: (i32, i32), edges: Seq<usize>, gid: usize) -> Map<
    ((i32, i32), usize),
    usize,
>
    decreases edges.len(),
{
    if edges.len() == 0 {
        links
    } else {
        add_links(links, pos, edges.drop_last(), gid).insert((pos, edges.last()), gid)
    }
}

/// `links` with every edge linked to `from` linked to `to` instead.
pub open spec fn redirect(links: Map<((i32, i32), usize), usize>, from: usize, to: usize) -> Map<((i32, i32), usize), usize> {
    links.map_values(|g: usize| if g == from { to } else { g })
}

/// Merges group `other` into group `main`: the totals add up, the members unite, `other`
/// disappears and its edges are linked to `main`.
pub open spec fn merge_one(st: GroupState, main: usize, other: usize) -> GroupState {
    if st.groups.dom().contains(other) {
        let m = st.groups[main];
        let o = st.groups[other];
        GroupState {
            groups: st.groups.remove(other).insert(main, GroupView {
                group_type: m.group_type,
                elements: m.elements + o.elements,
                segments: m.segments + o.segments,
                members: m.members + o.members,
                closed: m.closed,
            }),
            links: redirect(st.links, other, main),
            next_id: st.next_id,
        }
    } else {
        st
    }
}

/// Merges each of `others`, in order, into `main`.
pub open spec fn merge_all(st: GroupState, main: usize, others: Seq<usize>) -> GroupState
    decreases others.len(),
{
    if others.len() == 0 {
        st
    } else {
        merge_one(merge_all(st, main, others.drop_last()), main, others.last())
    }
}

/// Adds one segment of the tile at `pos` (whose turned edges are `cfg`) to the groups:
/// with no touched group it founds a new group under the next id; otherwise it joins
/// the first touched group, adding its elements, one segment and `pos`, and every
/// other touched group is merged into that one. Its edges are linked to the group.
pub open spec fn apply_segment(
    tiles: Map<(i32, i32), PlacedTile>,
    st: GroupState,
    pos: (i32, i32),
    cfg: Seq<EdgeType>,
    seg: SegModel,
) -> GroupState {
    let c = connected_ids(tiles, st.links, pos, cfg, seg.0, seg.3);
    if c.len() == 0 {
        GroupState {
            groups: st.groups.insert(st.next_id as usize, GroupView {
                group_type: seg.0,
                elements: seg.2,
                segments: 1,
                members: set![pos],
                closed: false,
            }),
            links: add_links(st.links, pos, seg.3, st.next_id as usize),
            next_id: st.next_id + 1,
        }
    } else {
        let main = c[0];
        let m = st.groups[main];
        let st1 = GroupState {
            groups: st.groups.insert(main, GroupView {
                group_type: m.group_type,
                elements: m.elements + seg.2,
                segments: m.segments + 1,
                members: m.members.insert(pos),
                closed: m.closed,
            }),
            links: add_links(st.links, pos, seg.3, main),
            next_id: st.next_id,
        };
        merge_all(st1, main, c.drop_first())
    }
}

/// Adds the segments, in order, to the groups.
pub open spec fn apply_segments(
    tiles: Map<(i32, i32), PlacedTile>,
    st: GroupState,
    pos: (i32, i32),
    cfg: Seq<EdgeType>,
    segs: Seq<SegModel>,
) -> GroupState
    decreases segs.len(),
{
    if segs.len() == 0 {
        st
    } else {
        apply_segment(tiles, apply_segments(tiles, st, pos, cfg, segs.drop_last()), pos, cfg, segs.last())
    }
}

/// The total elements of a list of segments.
pub open spec fn segs_elements(segs: Seq<SegModel>) -> nat
    decreases segs.len(),
{
    if segs.len() == 0 {
        0
    } else {
        segs_elements(segs.drop_last()) + segs.last().2
    }
}

/// Replacing a group changes the element sum by the difference.
pub proof fn lemma_sum_update(gs: Seq<ElementGroup>, i: int, x: ElementGroup)
    requires
        0 <= i < gs.len(),
    ensures
        sum_elements(gs.update(i, x)) == sum_elements(gs) - gs[i].total_element_count + x.total_element_count,
        sum_segments(gs.update(i, x)) == sum_segments(gs) - gs[i].total_segment_count + x.total_segment_count,
        gs[i].total_element_count <= sum_elements(gs),
        gs[i].total_segment_count <= sum_segments(gs),
    decreases gs.len(),
{
    if i < gs.len() - 1 {
        assert(gs.update(i, x).drop_last() =~= gs.drop_last().update(i, x));
        lemma_sum_update(gs.drop_last(), i, x);
    } else {
        assert(gs.update(i, x).drop_last() =~= gs.drop_last());
    }
}

/// Removing a group lowers the sums by its counts.
pub proof fn lemma_sum_remove(gs: Seq<ElementGroup>, i: int)
    requires
        0 <= i < gs.len(),
    ensures
        sum_elements(gs.remove(i)) == sum_elements(gs) - gs[i].total_element_count,
        sum_segments(gs.remove(i)) == sum_segments(gs) - gs[i].total_segment_count,
    decreases gs.len(),
{
    if i < gs.len() - 1 {
        assert(gs.remove(i).drop_last() =~= gs.drop_last().remove(i));
        lemma_sum_remove(gs.drop_last(), i);
    } else {
        assert(gs.remove(i) =~= gs.drop_last());
    }
}

/// Adds `p` to a member list that holds no repetition.
fn add_member(v: &mut Vec<(i32, i32)>, p: (i32, i32))
    requires
        old(v)@.no_duplicates(),
    ensures
        final(v)@.no_duplicates(),
        final(v)@.to_set() == old(v)@.to_set().insert(p),
        forall|k: int| 0 <= k < final(v)@.len() ==> #[trigger] final(v)@[k] == p || old(v)@.contains(final(v)@[k]),
{
    let mut i: usize = 0;
    let ghost orig = v@;
    while i < v.len()
        invariant
            v@ == orig,
            orig == old(v)@,
            orig.no_duplicates(),
            i <= v.len(),
            forall|j: int| 0 <= j < i ==> v@[j] != p,
        decreases v.len() - i,
    {
        if v[i].0 == p.0 && v[i].1 == p.1 {
            assert(v@[i as int] == p);
            assert(v@.to_set() =~= v@.to_set().insert(p));
            return;
        }
        i += 1;
    }
    let ghost before = v@;
    v.push(p);
    assert(v@.to_set() =~= before.to_set().insert(p)) by {
        assert forall|x: (i32, i32)| v@.to_set().contains(x) <==> before.to_set().insert(p).contains(x) by {
            if v@.contains(x) {
                let k = choose|k: int| 0 <= k < v@.len() && v@[k] == x;
                if k < before.len() {
                    assert(before[k] == x);
                }
            }
            if before.contains(x) {
                let k = choose|k: int| 0 <= k < before.len() && before[k] == x;
                assert(v@[k] == x);
            }
            if x == p {
                assert(v@[before.len() as int] == p);
            }
        }
    };
}

/// Adds the members of `w` to `v`.
fn extend_members(v: &mut Vec<(i32, i32)>, w: &Vec<(i32, i32)>)
    requires
        old(v)@.no_duplicates(),
    ensures
        final(v)@.no_duplicates(),
        final(v)@.to_set() == old(v)@.to_set() + w@.to_set(),
        forall|k: int| 0 <= k < final(v)@.len() ==> old(v)@.contains(#[trigger] final(v)@[k]) || w@.contains(final(v)@[k]),
{
    let ghost orig = v@;
    let mut i: usize = 0;
    assert(orig.to_set() =~= orig.to_set() + w@.take(0).to_set());
    while i < w.len()
        invariant
            i <= w.len(),
            v@.no_duplicates(),
            v@.to_set() == orig.to_set() + w@.take(i as int).to_set(),
            forall|k: int| 0 <= k < v@.len() ==> orig.contains(#[trigger] v@[k]) || w@.contains(v@[k]),
        decreases w.len() - i,
    {
        let ghost before = v@;
        add_member(v, w[i]);
        assert(w@.take(i + 1).to_set() =~= w@.take(i as int).to_set().insert(w@[i as int])) by {
            assert(w@.take(i + 1) =~= w@.take(i as int) + seq![w@[i as int]]);
            Seq::lemma_to_set_insert_commutes(w@.take(i as int), w@[i as int]);
        };
        assert(v@.to_set() =~= orig.to_set() + w@.take(i + 1).to_set());
        assert forall|k: int| 0 <= k < v@.len() implies orig.contains(#[trigger] v@[k]) || w@.contains(v@[k]) by {
            if v@[k] == w@[i as int] {
                assert(w@.contains(v@[k]));
            } else {
                let k2 = choose|k2: int| 0 <= k2 < before.len() && before[k2] == v@[k];
                assert(orig.contains(before[k2]) || w@.contains(before[k2]));
            }
        }
        i += 1;
    }
    assert(w@.take(w@.len() as int) =~= w@);
}

/// The link entry redirected from group `from` to group `to`.
pub open spec fn redirect_entry(e: EdgeEntry, from: usize, to: usize) -> EdgeEntry {
    if e.1 == from {
        (e.0, to)
    } else {
        e
    }
}

impl Board {
    /// Links edge `(pos, dir)` to group `gid`, replacing any earlier link of that edge.
    fn set_link(&mut self, pos: (i32, i32), dir: usize, gid: usize)
        requires
            distinct_keys(old(self).edge_to_group@, link_key()),
        ensures
            distinct_keys(final(self).edge_to_group@, link_key()),
            final(self).links() == old(self).links().insert((pos, dir), ((pos, dir), gid)),
            final(self).placed_tiles == old(self).placed_tiles,
            final(self).groups == old(self).groups,
            final(self).next_group_id == old(self).next_group_id,
    {
        let mut i = self.edge_to_group.len();
        while i > 0
            invariant
                *self == *old(self),
                distinct_keys(self.edge_to_group@, link_key()),
                i <= self.edge_to_group@.len(),
                forall|j: int| i <= j < self.edge_to_group@.len() ==> #[trigger] self.edge_to_group@[j].0 != (pos, dir),
            decreases i,
        {
            i -= 1;
            let e = self.edge_to_group[i];
            if e.0.0.0 == pos.0 && e.0.0.1 == pos.1 && e.0.1 == dir {
                proof {
                    assert(self.edge_to_group@[i as int].0 == (pos, dir));
                    lemma_keyed_update(self.edge_to_group@, link_key(), i as int, ((pos, dir), gid));
                }
                self.edge_to_group.set(i, ((pos, dir), gid));
                return;
            }
        }
        proof {
            lemma_keyed_dom(self.edge_to_group@, link_key(), (pos, dir));
            lemma_keyed_push_distinct(self.edge_to_group@, link_key(), ((pos, dir), gid));
        }
        self.edge_to_group.push(((pos, dir), gid));
    }

    /// Links every edge that is linked to group `from` to group `to` instead.
    fn redirect_links(&mut self, from: usize, to: usize)
        requires
            distinct_keys(old(self).edge_to_group@, link_key()),
        ensures
            distinct_keys(final(self).edge_to_group@, link_key()),
            final(self).edge_to_group@ == old(self).edge_to_group@.map_values(|e: EdgeEntry| redirect_entry(e, from, to)),
            final(self).links() == old(self).links().map_values(|e: EdgeEntry| redirect_entry(e, from, to)),
            final(self).placed_tiles == old(self).placed_tiles,
            final(self).groups == old(self).groups,
            final(self).next_group_id == old(self).next_group_id,
    {
        let ghost orig = self.edge_to_group@;
        let mut i: usize = 0;
        while i < self.edge_to_group.len()
            invariant
                self.edge_to_group@.len() == orig.len(),
                i <= orig.len(),
                forall|j: int| 0 <= j < i ==> #[trigger] self.edge_to_group@[j] == redirect_entry(orig[j], from, to),
                forall|j: int| i <= j < orig.len() ==> #[trigger] self.edge_to_group@[j] == orig[j],
                self.placed_tiles == old(self).placed_tiles,
                self.groups == old(self).groups,
                self.next_group_id == old(self).next_group_id,
                orig == old(self).edge_to_group@,
            decreases orig.len() - i,
        {
            let e = self.edge_to_group[i];
            if e.1 == from {
                self.edge_to_group.set(i, (e.0, to));
            }
            i += 1;
        }
        let ghost f = |e: EdgeEntry| redirect_entry(e, from, to);
        assert(self.edge_to_group@ =~= orig.map_values(f));
        proof {
            assert forall|x: EdgeEntry| #[trigger] link_key()(f(x)) == link_key()(x) by {}
            lemma_keyed_map_values(orig, link_key(), f);
        }
    }
}

impl Board {
    /// Merges group `other` into group `main` (nothing happens when `other` does not exist).
    fn merge_group(&mut self, main: usize, other: usize)
        requires
            old(self).wf(),
            main != other,
            old(self).group_map().dom().contains(main),
        ensures
            final(self).wf(),
            final(self).state() == merge_one(old(self).state(), main, other),
            final(self).placed_tiles == old(self).placed_tiles,
            final(self).next_group_id == old(self).next_group_id,
            sum_elements(final(self).groups@) == sum_elements(old(self).groups@),
            sum_segments(final(self).groups@) == sum_segments(old(self).groups@),
            final(self).group_map().dom().contains(main),
    {
        let oi = match self.find_group(other) {
            None => {
                return;
            },
            Some(i) => i,
        };
        let ghost old_groups = self.groups@;
        let ghost old_map = self.group_map();
        let ghost old_links = self.links();
        let ghost old_state = self.state();
        let og = self.groups.remove(oi);
        proof {
            lemma_keyed_remove(old_groups, group_key(), oi as int);
            lemma_sum_remove(old_groups, oi as int);
            assert(self.group_map() == old_map.remove(other));
        }
        let mi = match self.find_group(main) {
            Some(i) => i,
            None => {
                assert(false);
                return;
            },
        };
        let ghost removed = self.groups@;
        let ghost mg = self.groups@[mi as int];
        proof {
            lemma_sum_update(removed, mi as int, mg);
            assert(mg == old_map[main]);
            assert(og == old_map[other]);
            lemma_sum_remove(old_groups, oi as int);
            lemma_sum_update(old_groups, oi as int, og);
        }
        assert(mg.total_element_count + og.total_element_count <= sum_elements(old_groups));
        assert(mg.total_segment_count + og.total_segment_count <= sum_segments(old_groups));
        self.groups[mi].total_element_count = self.groups[mi].total_element_count + og.total_element_count;
        self.groups[mi].total_segment_count = self.groups[mi].total_segment_count + og.total_segment_count;
        extend_members(&mut self.groups[mi].member_tiles, &og.member_tiles);
        let ghost ng = self.groups@[mi as int];
        proof {
            assert(self.groups@ == removed.update(mi as int, ng));
            lemma_keyed_update(removed, group_key(), mi as int, ng);
            lemma_sum_update(removed, mi as int, ng);
            assert(self.group_map() == old_map.remove(other).insert(main, ng));
        }
        self.redirect_links(other, main);
        proof {
            let f = |e: EdgeEntry| redirect_entry(e, other, main);
            assert(self.links() == old_links.map_values(f));
            let gv = GroupView {
                group_type: mg.group_type,
                elements: (mg.total_element_count + og.total_element_count) as nat,
                segments: (mg.total_segment_count + og.total_segment_count) as nat,
                members: mg.member_tiles@.to_set() + og.member_tiles@.to_set(),
                closed: mg.is_closed,
            };
            assert(group_view(ng) == gv);
            assert(self.state().groups =~= old_state.groups.remove(other).insert(main, gv));
            assert(self.state().links =~= redirect(old_state.links, other, main));
            assert(old_state.groups.dom().contains(other));
            assert(old_state.groups[main] == group_view(mg));
            assert(old_state.groups[other] == group_view(og));
            assert(self.state() == merge_one(old_state, main, other));
            // consistency
            assert forall|id: usize| #[trigger] self.group_map().dom().contains(id) implies group_ok(self, id) by {
                assert(old_map.dom().contains(id));
                if id == main {
                    assert forall|k: int| 0 <= k < ng.member_tiles@.len() implies self.tiles().dom().contains(
                        #[trigger] ng.member_tiles@[k],
                    ) by {
                        let x = ng.member_tiles@[k];
                        if mg.member_tiles@.contains(x) {
                            let k2 = choose|k2: int| 0 <= k2 < mg.member_tiles@.len() && mg.member_tiles@[k2] == x;
                            assert(group_ok(old(self), main));
                            assert(old(self).tiles().dom().contains(mg.member_tiles@[k2]));
                        } else {
                            assert(og.member_tiles@.contains(x));
                            let k2 = choose|k2: int| 0 <= k2 < og.member_tiles@.len() && og.member_tiles@[k2] == x;
                            assert(group_ok(old(self), other));
                            assert(old(self).tiles().dom().contains(og.member_tiles@[k2]));
                        }
                    }
                } else {
                    assert(group_ok(old(self), id));
                }
            }
            assert forall|k: ((i32, i32), usize)| #[trigger] self.links().dom().contains(k) implies link_ok(self, k) by {
                assert(old_links.dom().contains(k));
                assert(link_ok(old(self), k));
            }
        }
    }
}

/// The connected ids never repeat, and each is a linked group id.
pub proof fn lemma_connected_ids(
    tiles: Map<(i32, i32), PlacedTile>,
    links: Map<((i32, i32), usize), usize>,
    pos: (i32, i32),
    cfg: Seq<EdgeType>,
    gt: GroupType,
    edges: Seq<usize>,
)
    ensures
        connected_ids(tiles, links, pos, cfg, gt, edges).no_duplicates(),
        forall|k: int| 0 <= k < connected_ids(tiles, links, pos, cfg, gt, edges).len() ==> exists|e: ((i32, i32), usize)|
            links.dom().contains(e) && links[e] == #[trigger] connected_ids(tiles, links, pos, cfg, gt, edges)[k],
    decreases edges.len(),
{
    if edges.len() > 0 {
        lemma_connected_ids(tiles, links, pos, cfg, gt, edges.drop_last());
        let prev = connected_ids(tiles, links, pos, cfg, gt, edges.drop_last());
        let cur = connected_ids(tiles, links, pos, cfg, gt, edges);
        assert forall|k: int| 0 <= k < cur.len() implies exists|e: ((i32, i32), usize)| links.dom().contains(e)
            && links[e] == #[trigger] cur[k] by {
            if k < prev.len() {
                assert(cur[k] == prev[k]);
            } else {
                let d = edges.last();
                let e = (neighbor_of(pos, d as nat), spec_opposite(d as nat) as usize);
                assert(links.dom().contains(e) && links[e] == cur[k]);
            }
        }
    }
}

impl Board {
    /// The ids of the groups a segment on the tile at `pos` touches.
    fn connected_group_ids(&self, pos: (i32, i32), cfg: &HexEdgeConfig, gt: GroupType, edges: &Vec<usize>) -> (c: Vec<usize>)
        requires
            self.wf(),
            coord_ok(pos.0),
            coord_ok(pos.1),
            forall|k: int| 0 <= k < edges@.len() ==> #[trigger] edges@[k] < 6,
        ensures
            c@ == connected_ids(self.tiles(), self.state().links, pos, cfg.edges@, gt, edges@),
    {
        let mut c: Vec<usize> = Vec::new();
        let mut i: usize = 0;
        assert(edges@.take(0) =~= Seq::<usize>::empty());
        while i < edges.len()
            invariant
                self.wf(),
                coord_ok(pos.0),
                coord_ok(pos.1),
                forall|k: int| 0 <= k < edges@.len() ==> #[trigger] edges@[k] < 6,
                i <= edges.len(),
                c@ == connected_ids(self.tiles(), self.state().links, pos, cfg.edges@, gt, edges@.take(i as int)),
            decreases edges.len() - i,
        {
            let dir = edges[i];
            proof {
                assert(edges@.take(i + 1).drop_last() =~= edges@.take(i as int));
                assert(edges@.take(i + 1).last() == dir);
            }
            let neighbor_pos = get_neighbor_pos(pos.0, pos.1, dir);
            let neighbor_dir = opposite_direction(dir);
            match self.find_tile(neighbor_pos) {
                Some(ni) => {
                    let my_edge = cfg.edges[dir];
                    let neighbor_edge = self.placed_tiles[ni].edge_config.edges[neighbor_dir];
                    if my_edge.to_group_type() == Some(gt) && neighbor_edge.to_group_type() == Some(gt) {
                        match self.find_link(neighbor_pos, neighbor_dir) {
                            Some(gid) => {
                                if !vec_contains(&c, gid) {
                                    c.push(gid);
                                }
                            },
                            None => {},
                        }
                    }
                },
                None => {},
            }
            i += 1;
        }
        assert(edges@.take(edges@.len() as int) =~= edges@);
        c
    }

    /// Adds one segment of the tile at `pos` to the groups.
    fn add_segment(&mut self, pos: (i32, i32), cfg: &HexEdgeConfig, seg: &TileSegmentData)
        requires
            old(self).wf(),
            old(self).tiles().dom().contains(pos),
            coord_ok(pos.0),
            coord_ok(pos.1),
            forall|k: int| 0 <= k < seg.edges@.len() ==> #[trigger] seg.edges@[k] < 6,
            sum_elements(old(self).groups@) + seg.element_count <= usize::MAX,
            sum_segments(old(self).groups@) + 1 <= usize::MAX,
            old(self).next_group_id < usize::MAX,
        ensures
            final(self).wf(),
            final(self).state() == apply_segment(old(self).tiles(), old(self).state(), pos, cfg.edges@, seg_model(*seg)),
            final(self).placed_tiles == old(self).placed_tiles,
            sum_elements(final(self).groups@) == sum_elements(old(self).groups@) + seg.element_count,
            sum_segments(final(self).groups@) == sum_segments(old(self).groups@) + 1,
            old(self).next_group_id <= final(self).next_group_id <= old(self).next_group_id + 1,
    {
        let gt = seg.group_type;
        let element_count = seg.element_count;
        let ghost old_state = self.state();
        let ghost old_tiles = self.tiles();
        let c = self.connected_group_ids(pos, cfg, gt, &seg.edges);
        proof {
            lemma_connected_ids(old_tiles, old_state.links, pos, cfg.edges@, gt, seg.edges@);
        }
        if c.len() == 0 {
            let gid = self.next_group_id;
            self.next_group_id = self.next_group_id + 1;
            let mut members: Vec<(i32, i32)> = Vec::new();
            members.push(pos);
            let ghost before = self.groups@;
            proof {
                assert(!self.group_map().dom().contains(gid)) by {
                    if self.group_map().dom().contains(gid) {
                        assert(group_ok(old(self), gid));
                    }
                };
            }
            let g = ElementGroup {
                id: gid,
                group_type: gt,
                total_element_count: element_count,
                total_segment_count: 1,
                member_tiles: members,
                is_closed: false,
            };
            proof {
                lemma_keyed_push_distinct(before, group_key(), g);
                assert(before.push(g).drop_last() =~= before);
            }
            self.groups.push(g);
            let ghost mid_map = self.group_map();
            let ghost mid_links = self.links();
            let mut k: usize = 0;
            assert(seg.edges@.take(0) =~= Seq::<usize>::empty());
            while k < seg.edges.len()
                invariant
                    forall|m: int| 0 <= m < seg.edges@.len() ==> #[trigger] seg.edges@[m] < 6,
                    distinct_keys(self.edge_to_group@, link_key()),
                    k <= seg.edges.len(),
                    self.links().map_values(|e: EdgeEntry| e.1) == add_links(old_state.links, pos, seg.edges@.take(k as int), gid),
                    forall|key: ((i32, i32), usize)| #[trigger] self.links().dom().contains(key) ==> self.links()[key].0 == key
                        && (mid_links.dom().contains(key) || (key.0 == pos && key.1 < 6 && self.links()[key].1 == gid))
                        && (mid_links.dom().contains(key) && self.links()[key] != mid_links[key] ==> key.0 == pos && self.links()[key].1 == gid),
                    self.groups@ == before.push(g),
                    self.placed_tiles == old(self).placed_tiles,
                    self.next_group_id == gid + 1,
                    mid_links == old(self).links(),
                decreases seg.edges.len() - k,
            {
                let dir = seg.edges[k];
                let ghost prev_links = self.links();
                self.set_link(pos, dir, gid);
                proof {
                    assert(seg.edges@.take(k + 1).drop_last() =~= seg.edges@.take(k as int));
                    assert(self.links().map_values(|e: EdgeEntry| e.1) =~= prev_links.map_values(|e: EdgeEntry| e.1).insert((pos, dir), gid));
                }
                k += 1;
            }
            proof {
                assert(seg.edges@.take(seg.edges@.len() as int) =~= seg.edges@);
                lemma_keyed_dom(self.groups@, group_key(), gid);
                assert(self.group_map() == old(self).group_map().insert(gid, g));
                assert(self.state().groups =~= old_state.groups.insert(gid, group_view(g)));
                assert(g.member_tiles@ =~= seq![pos]);
                assert forall|x: (i32, i32)| g.member_tiles@.to_set().contains(x) <==> set![pos].contains(x) by {
                    if x == pos {
                        assert(g.member_tiles@[0] == x);
                    }
                }
                assert(group_view(g).members =~= set![pos]);
                assert(self.state() == apply_segment(old_tiles, old_state, pos, cfg.edges@, seg_model(*seg)));
                assert forall|id: usize| #[trigger] self.group_map().dom().contains(id) implies group_ok(self, id) by {
                    if id != gid {
                        assert(group_ok(old(self), id));
                    } else {
                        assert(g.member_tiles@[0] == pos);
                        assert(self.group_map()[id] == g);
                        assert(g.member_tiles@.no_duplicates());
                    }
                }
                assert forall|key: ((i32, i32), usize)| #[trigger] self.links().dom().contains(key) implies link_ok(self, key) by {
                    if mid_links.dom().contains(key) && self.links()[key] == mid_links[key] {
                        assert(link_ok(old(self), key));
                    }
                }
            }
        } else {
            let main = c[0];
            assert(old_state.links.dom().contains(choose|e: ((i32, i32), usize)| old_state.links.dom().contains(e) && old_state.links[e] == c@[0]));
            proof {
                let e = choose|e: ((i32, i32), usize)| old_state.links.dom().contains(e) && old_state.links[e] == c@[0];
                assert(link_ok(old(self), e));
            }
            assert(self.group_map().dom().contains(main));
            let ghost mid_links = self.links();
            let mut k: usize = 0;
            assert(seg.edges@.take(0) =~= Seq::<usize>::empty());
            while k < seg.edges.len()
                invariant
                    forall|m: int| 0 <= m < seg.edges@.len() ==> #[trigger] seg.edges@[m] < 6,
                    distinct_keys(self.edge_to_group@, link_key()),
                    k <= seg.edges.len(),
                    self.links().map_values(|e: EdgeEntry| e.1) == add_links(old_state.links, pos, seg.edges@.take(k as int), main),
                    forall|key: ((i32, i32), usize)| #[trigger] self.links().dom().contains(key) ==> self.links()[key].0 == key
                        && (mid_links.dom().contains(key) || (key.0 == pos && key.1 < 6 && self.links()[key].1 == main))
                        && (mid_links.dom().contains(key) && self.links()[key] != mid_links[key] ==> key.0 == pos && self.links()[key].1 == main),
                    self.groups == old(self).groups,
                    self.placed_tiles == old(self).placed_tiles,
                    self.next_group_id == old(self).next_group_id,
                    mid_links == old(self).links(),
                decreases seg.edges.len() - k,
            {
                let dir = seg.edges[k];
                let ghost prev_links = self.links();
                self.set_link(pos, dir, main);
                proof {
                    assert(seg.edges@.take(k + 1).drop_last() =~= seg.edges@.take(k as int));
                    assert(self.links().map_values(|e: EdgeEntry| e.1) =~= prev_links.map_values(|e: EdgeEntry| e.1).insert((pos, dir), main));
                }
                k += 1;
            }
            assert(seg.edges@.take(seg.edges@.len() as int) =~= seg.edges@);
            let mi = match self.find_group(main) {
                Some(i) => i,
                None => {
                    assert(false);
                    return;
                },
            };
            let ghost gs0 = self.groups@;
            let ghost mg = gs0[mi as int];
            proof {
                lemma_sum_update(gs0, mi as int, mg);
            }
            self.groups[mi].total_element_count = self.groups[mi].total_element_count + element_count;
            self.groups[mi].total_segment_count = self.groups[mi].total_segment_count + 1;
            add_member(&mut self.groups[mi].member_tiles, pos);
            let ghost ng = self.groups@[mi as int];
            proof {
                assert(self.groups@ == gs0.update(mi as int, ng));
                lemma_keyed_update(gs0, group_key(), mi as int, ng);
                lemma_sum_update(gs0, mi as int, ng);
                let m = old_state.groups[main];
                let st1 = GroupState {
                    groups: old_state.groups.insert(main, GroupView {
                        group_type: m.group_type,
                        elements: m.elements + seg.element_count as nat,
                        segments: m.segments + 1,
                        members: m.members.insert(pos),
                        closed: m.closed,
                    }),
                    links: add_links(old_state.links, pos, seg.edges@, main),
                    next_id: old_state.next_id,
                };
                assert(group_view(ng) == st1.groups[main]);
                assert(self.state().groups =~= st1.groups);
                assert(self.state() == st1);
                assert forall|id: usize| #[trigger] self.group_map().dom().contains(id) implies group_ok(self, id) by {
                    assert(group_ok(old(self), id));
                    if id == main {
                        assert forall|k: int| 0 <= k < ng.member_tiles@.len() implies self.tiles().dom().contains(
                            #[trigger] ng.member_tiles@[k],
                        ) by {
                            let x = ng.member_tiles@[k];
                            if x != pos {
                                let k2 = choose|k2: int| 0 <= k2 < mg.member_tiles@.len() && mg.member_tiles@[k2] == x;
                                assert(old(self).tiles().dom().contains(mg.member_tiles@[k2]));
                            }
                        }
                    }
                }
                assert forall|key: ((i32, i32), usize)| #[trigger] self.links().dom().contains(key) implies link_ok(self, key) by {
                    if mid_links.dom().contains(key) && self.links()[key] == mid_links[key] {
                        assert(link_ok(old(self), key));
                    }
                }
            }
            let ghost st1 = self.state();
            let mut idx: usize = 1;
            assert(c@.drop_first().take(0) =~= Seq::<usize>::empty());
            while idx < c.len()
                invariant
                    self.wf(),
                    1 <= idx <= c.len(),
                    c@.no_duplicates(),
                    main == c@[0],
                    self.group_map().dom().contains(main),
                    self.state() == merge_all(st1, main, c@.drop_first().take(idx - 1)),
                    self.placed_tiles == old(self).placed_tiles,
                    self.next_group_id == old(self).next_group_id,
                    sum_elements(self.groups@) == sum_elements(old(self).groups@) + seg.element_count,
                    sum_segments(self.groups@) == sum_segments(old(self).groups@) + 1,
                decreases c.len() - idx,
            {
                let other = c[idx];
                assert(other != main);
                self.merge_group(main, other);
                proof {
                    assert(c@.drop_first().take(idx as int).drop_last() =~= c@.drop_first().take(idx - 1));
                    assert(c@.drop_first().take(idx as int).last() == other);
                }
                idx += 1;
            }
            assert(c@.drop_first().take(c@.len() - 1) =~= c@.drop_first());
        }
    }
}

/// A prefix of segments carries no more elements than all of them.
pub proof fn lemma_segs_elements_prefix(segs: Seq<SegModel>, k: int)
    requires
        0 <= k <= segs.len(),
    ensures
        segs_elements(segs.take(k)) <= segs_elements(segs),
    decreases segs.len(),
{
    if k < segs.len() {
        assert(segs.drop_last().take(k) =~= segs.take(k));
        lemma_segs_elements_prefix(segs.drop_last(), k);
    } else {
        assert(segs.take(k) =~= segs);
    }
}

/// The tile record that placing `tile` turned by `rot` at `(q, r)` creates: its edges
/// are the tile's edges turned by `rot`, and a quest tile starts incomplete.
pub open spec fn placed_as(t: PlacedTile, q: i32, r: i32, tile: GeneratedTile, rot: usize) -> bool {
    &&& t.q == q
    &&& t.r == r
    &&& t.tile == tile
    &&& t.rotation == rot
    &&& t.edge_config.edges@ == rotated(spec_hex_edges(tile), rot as nat)
    &&& t.quest_status == (if tile is Quest { Some(FulfillmentStatus::Incomplete) } else { None::<FulfillmentStatus> })
    &&& !t.quest_finalized
    &&& t.quest_id == (match tile {
        GeneratedTile::Quest { quest_data, .. } => quest_data.quest_id,
        _ => None::<usize>,
    })
}

/// The elements the segments of the placed tiles carry, each tile taken with its turn.
pub open spec fn placed_elements(ts: Seq<PlacedTile>) -> nat
    decreases ts.len(),
{
    if ts.len() == 0 {
        0
    } else {
        placed_elements(ts.drop_last()) + segs_elements(spec_segments(ts.last().tile, ts.last().rotation as nat))
    }
}

/// The number of segments of the placed tiles, each tile taken with its turn.
pub open spec fn placed_segments(ts: Seq<PlacedTile>) -> nat
    decreases ts.len(),
{
    if ts.len() == 0 {
        0
    } else {
        placed_segments(ts.drop_last()) + spec_segments(ts.last().tile, ts.last().rotation as nat).len()
    }
}

/// The groups hold together exactly the elements and the segments of the placed tiles:
/// merging groups neither loses nor counts twice.
pub open spec fn tallied(b: &Board) -> bool {
    &&& sum_elements(b.groups@) == placed_elements(b.placed_tiles@)
    &&& sum_segments(b.groups@) == placed_segments(b.placed_tiles@)
}

/// Recording quest statuses keeps the tallies of the placed tiles.
pub proof fn lemma_tally_map(ts: Seq<PlacedTile>, f: spec_fn(PlacedTile) -> PlacedTile)
    requires
        forall|t: PlacedTile| #[trigger] f(t).tile == t.tile && f(t).rotation == t.rotation,
    ensures
        placed_elements(ts.map_values(f)) == placed_elements(ts),
        placed_segments(ts.map_values(f)) == placed_segments(ts),
    decreases ts.len(),
{
    if ts.len() > 0 {
        assert(ts.map_values(f).drop_last() =~= ts.drop_last().map_values(f));
        lemma_tally_map(ts.drop_last(), f);
        assert(ts.map_values(f).last() == f(ts.last()));
    }
}

/// The preconditions of placing `tile` turned by `rot`: its computations fit in machine
/// integers, and the group totals and ids stay representable.
pub open spec fn placement_fits(b: &Board, tile: GeneratedTile, rot: usize) -> bool {
    &&& tile_fits(tile, rot as nat)
    &&& rot + 10 <= usize::MAX
    &&& sum_elements(b.groups@) + segs_elements(spec_segments(tile, rot as nat)) <= usize::MAX
    &&& sum_segments(b.groups@) + spec_segments(tile, rot as nat).len() <= usize::MAX
    &&& b.next_group_id + spec_segments(tile, rot as nat).len() < usize::MAX
    &&& (b.placed_tiles@.len() + 1) * 6 <= usize::MAX
}

impl Board {
    /// Places `tile` turned by `rotation` at `(q, r)` when the placement rule allows it,
    /// then adds each of its segments to the terrain groups. Returns whether it was placed;
    /// a refused placement changes nothing.
    pub fn place_tile(&mut self, q: i32, r: i32, tile: GeneratedTile, rotation: usize) -> (ok: bool)
        requires
            old(self).wf(),
            coord_ok(q),
            coord_ok(r),
            placement_fits(old(self), tile, rotation),
        ensures
            ok == spec_can_place(old(self), q, r, tile, rotation as nat),
            !ok ==> *final(self) == *old(self),
            final(self).wf(),
            ok ==> final(self).tiles().dom() == old(self).tiles().dom().insert((q, r)),
            ok ==> forall|p: (i32, i32)| #[trigger] old(self).tiles().dom().contains(p) ==> final(self).tiles()[p] == old(self).tiles()[p],
            ok ==> placed_as(final(self).tiles()[(q, r)], q, r, tile, rotation),
            ok ==> final(self).state() == apply_segments(final(self).tiles(), old(self).state(), (q, r), rotated(spec_hex_edges(tile), rotation as nat),
                spec_segments(tile, rotation as nat)),
            ok ==> sum_elements(final(self).groups@) == sum_elements(old(self).groups@) + segs_elements(spec_segments(tile, rotation as nat)),
            ok ==> sum_segments(final(self).groups@) == sum_segments(old(self).groups@) + spec_segments(tile, rotation as nat).len(),
            tallied(old(self)) ==> tallied(final(self)),
    {
        if !self.can_place_tile(q, r, &tile, rotation) {
            return false;
        }
        let mut cfg = tile.to_hex_edge_config();
        cfg.rotate(rotation);
        let segs = tile.get_segments(rotation);
        let ghost smods = spec_segments(tile, rotation as nat);
        assert(segs@.map_values(|t: TileSegmentData| seg_model(t)) == smods);
        let (is_quest, quest_id) = match &tile {
            GeneratedTile::Quest { quest_data, .. } => (true, quest_data.quest_id),
            _ => (false, None),
        };
        let placed = PlacedTile {
            q,
            r,
            tile,
            rotation,
            edge_config: cfg,
            quest_status: if is_quest { Some(FulfillmentStatus::Incomplete) } else { None },
            quest_finalized: false,
            quest_id,
        };
        let ghost old_tiles = self.tiles();
        proof {
            lemma_keyed_push_distinct(self.placed_tiles@, tile_key(), placed);
        }
        self.placed_tiles.push(placed);
        let ghost st0 = self.state();
        proof {
            assert(st0 == old(self).state());
            assert(self.tiles() == old_tiles.insert((q, r), placed));
            assert forall|i: int| 0 <= i < self.placed_tiles@.len() implies #[trigger] tile_ok(self.placed_tiles@[i]) by {
                if i < old(self).placed_tiles@.len() {
                    assert(self.placed_tiles@[i] == old(self).placed_tiles@[i]);
                }
            }
            assert forall|id: usize| #[trigger] self.group_map().dom().contains(id) implies group_ok(self, id) by {
                assert(group_ok(old(self), id));
            }
            assert forall|key: ((i32, i32), usize)| #[trigger] self.links().dom().contains(key) implies link_ok(self, key) by {
                assert(link_ok(old(self), key));
            }
            assert(self.wf());
        }
        let ghost new_tiles = self.tiles();
        let ghost pts = self.placed_tiles@;
        assert(pts == old(self).placed_tiles@.push(placed));
        let ghost cfg_edges = cfg.edges@;
        let mut i: usize = 0;
        assert(smods.take(0) =~= Seq::<SegModel>::empty());
        while i < segs.len()
            invariant
                self.wf(),
                coord_ok(q),
                coord_ok(r),
                self.tiles() == new_tiles,
                self.placed_tiles@ == pts,
                new_tiles.dom().contains((q, r)),
                cfg.edges@ == cfg_edges,
                i <= segs.len(),
                segs@.map_values(|t: TileSegmentData| seg_model(t)) == smods,
                forall|m: int, k: int| 0 <= m < segs@.len() && 0 <= k < segs@[m].edges@.len() ==> #[trigger] segs@[m].edges@[k] < 6,
                self.state() == apply_segments(new_tiles, st0, (q, r), cfg_edges, smods.take(i as int)),
                sum_elements(self.groups@) == sum_elements(old(self).groups@) + segs_elements(smods.take(i as int)),
                sum_segments(self.groups@) == sum_segments(old(self).groups@) + i,
                self.next_group_id <= old(self).next_group_id + i,
                sum_elements(old(self).groups@) + segs_elements(smods) <= usize::MAX,
                sum_segments(old(self).groups@) + smods.len() <= usize::MAX,
                old(self).next_group_id + smods.len() < usize::MAX,
            decreases segs.len() - i,
        {
            proof {
                assert(smods.take(i + 1).drop_last() =~= smods.take(i as int));
                assert(smods[i as int] == seg_model(segs@[i as int]));
                lemma_segs_elements_prefix(smods, i + 1);
                assert forall|k: int| 0 <= k < segs@[i as int].edges@.len() implies #[trigger] segs@[i as int].edges@[k] < 6 by {}
            }
            self.add_segment((q, r), &cfg, &segs[i]);
            i += 1;
        }
        assert(smods.take(smods.len() as int) =~= smods);
        assert(pts.drop_last() =~= old(self).placed_tiles@);
        true
    }
}

/// The count a group contributes to a quest of terrain `gt`: elements for forest,
/// village, water and agriculture, segments for tracks.
pub open spec fn quest_count(g: ElementGroup, gt: GroupType) -> nat {
    match gt {
        GroupType::Forest | GroupType::Village | GroupType::Water | GroupType::Agriculture => g.total_element_count as nat,
        _ => g.total_segment_count as nat,
    }
}

/// Whether quests of terrain `gt` count elements (rather than segments).
pub open spec fn counts_elements(gt: GroupType) -> bool {
    gt != GroupType::TrainTracks
}

/// The counts of the listed groups (missing ids count zero).
pub open spec fn sum_ids(gm: Map<usize, ElementGroup>, ids: Seq<usize>, gt: GroupType) -> nat
    decreases ids.len(),
{
    if ids.len() == 0 {
        0
    } else {
        sum_ids(gm, ids.drop_last(), gt) + if gm.dom().contains(ids.last()) {
            quest_count(gm[ids.last()], gt)
        } else {
            0
        }
    }
}

/// Removing a group that is not listed leaves the sum unchanged.
pub proof fn lemma_sum_ids_remove(gm: Map<usize, ElementGroup>, ids: Seq<usize>, gt: GroupType, g: usize)
    requires
        !ids.contains(g),
    ensures
        sum_ids(gm, ids, gt) == sum_ids(gm.remove(g), ids, gt),
    decreases ids.len(),
{
    if ids.len() > 0 {
        assert(!ids.drop_last().contains(g)) by {
            if ids.drop_last().contains(g) {
                let k = choose|k: int| 0 <= k < ids.drop_last().len() && ids.drop_last()[k] == g;
                assert(ids[k] == g);
            }
        };
        assert(ids[ids.len() - 1] != g);
        lemma_sum_ids_remove(gm, ids.drop_last(), gt, g);
    }
}

/// Distinct groups never count more together than all groups.
pub proof fn lemma_sum_ids_bound(gs: Seq<ElementGroup>, ids: Seq<usize>, gt: GroupType)
    requires
        distinct_keys(gs, group_key()),
        ids.no_duplicates(),
    ensures
        counts_elements(gt) ==> sum_ids(keyed(gs, group_key()), ids, gt) <= sum_elements(gs),
        !counts_elements(gt) ==> sum_ids(keyed(gs, group_key()), ids, gt) <= sum_segments(gs),
    decreases ids.len(),
{
    if ids.len() > 0 {
        let g = ids.last();
        let m = keyed(gs, group_key());
        let rest = ids.drop_last();
        assert(rest.no_duplicates());
        if m.dom().contains(g) {
            lemma_keyed_dom(gs, group_key(), g);
            let i = choose|i: int| 0 <= i < gs.len() && group_key()(gs[i]) == g;
            lemma_keyed_distinct_at(gs, group_key(), i);
            lemma_keyed_remove(gs, group_key(), i);
            lemma_sum_remove(gs, i);
            assert(!rest.contains(g)) by {
                if rest.contains(g) {
                    let k = choose|k: int| 0 <= k < rest.len() && rest[k] == g;
                    assert(ids[k] == ids[ids.len() - 1]);
                }
            };
            lemma_sum_ids_remove(m, rest, gt, g);
            lemma_sum_ids_bound(gs.remove(i), rest, gt);
        } else {
            lemma_sum_ids_bound(gs, rest, gt);
        }
    }
}

/// The number of open edges of terrain `gt` that the listed tiles show: edges of that
/// terrain whose neighbouring position is empty. With a hover tile, its position counts
/// as occupied and its edges replace those of any tile there; listed positions that
/// hold no tile (and are not the hover position) count nothing.
pub open spec fn open_edges_sum(
    b: &Board,
    members: Seq<(i32, i32)>,
    gt: GroupType,
    hover: Option<((i32, i32), Seq<EdgeType>)>,
) -> nat
    decreases members.len(),
{
    if members.len() == 0 {
        0
    } else {
        open_edges_sum(b, members.drop_last(), gt, hover) + tile_open_edges(b, members.last(), gt, hover, 6)
    }
}

/// Whether the hover tile, if any, is at `m`.
pub open spec fn hover_at(hover: Option<((i32, i32), Seq<EdgeType>)>, m: (i32, i32)) -> bool {
    match hover {
        Some(h) => h.0 == m,
        None => false,
    }
}

/// The edges a listed position shows, if any.
pub open spec fn shown_edges(b: &Board, m: (i32, i32), hover: Option<((i32, i32), Seq<EdgeType>)>) -> Option<Seq<EdgeType>> {
    if hover_at(hover, m) {
        match hover {
            Some(h) => Some(h.1),
            None => None,
        }
    } else if b.tiles().dom().contains(m) {
        Some(edges_of(b.tiles()[m]))
    } else {
        None
    }
}

/// The open edges of terrain `gt` at position `m` among directions `0..n`.
pub open spec fn tile_open_edges(
    b: &Board,
    m: (i32, i32),
    gt: GroupType,
    hover: Option<((i32, i32), Seq<EdgeType>)>,
    n: nat,
) -> nat
    decreases n,
{
    if n == 0 {
        0
    } else {
        tile_open_edges(b, m, gt, hover, (n - 1) as nat) + match shown_edges(b, m, hover) {
            None => 0nat,
            Some(edges) => {
                let d = (n - 1) as nat;
                let np = neighbor_of(m, d);
                let occupied = b.tiles().dom().contains(np) || hover_at(hover, np);
                if spec_group_of_edge(edges[d as int]) == Some(gt) && !occupied {
                    1nat
                } else {
                    0nat
                }
            },
        }
    }
}

/// The members of the listed groups, group by group, each position once.
pub open spec fn union_members(gm: Map<usize, ElementGroup>, ids: Seq<usize>) -> Seq<(i32, i32)>
    decreases ids.len(),
{
    if ids.len() == 0 {
        Seq::<(i32, i32)>::empty()
    } else {
        let prev = union_members(gm, ids.drop_last());
        if gm.dom().contains(ids.last()) {
            add_unique(prev, gm[ids.last()].member_tiles@)
        } else {
            prev
        }
    }
}

/// `s` followed by the entries of `w` it does not hold yet, in order.
pub open spec fn add_unique(s: Seq<(i32, i32)>, w: Seq<(i32, i32)>) -> Seq<(i32, i32)>
    decreases w.len(),
{
    if w.len() == 0 {
        s
    } else {
        let prev = add_unique(s, w.drop_last());
        if prev.contains(w.last()) {
            prev
        } else {
            prev.push(w.last())
        }
    }
}

/// The tiles whose open edges decide a quest at `pos`: the members of its groups of
/// terrain `gt`, or the quest tile alone when it has none.
pub open spec fn quest_members(b: &Board, pos: (i32, i32), gt: GroupType) -> Seq<(i32, i32)> {
    let u = union_members(b.group_map(), tile_group_ids(b, pos, gt, 6));
    if u.len() == 0 {
        seq![pos]
    } else {
        u
    }
}

/// The count of terrain `gt` that groups connected to the quest tile at `pos` gather
/// beyond the quest tile's own share (zero when no group of that terrain touches it).
pub open spec fn spec_external_count(b: &Board, pos: (i32, i32), gt: GroupType) -> nat {
    let gids = tile_group_ids(b, pos, gt, 6);
    if gids.len() == 0 {
        0
    } else {
        let own: nat = if b.tiles().dom().contains(pos) {
            if counts_elements(gt) {
                spec_tile_element_count(b.tiles()[pos].tile, gt)
            } else {
                1
            }
        } else {
            0
        };
        let total = sum_ids(b.group_map(), gids, gt);
        if total > own {
            (total - own) as nat
        } else {
            0
        }
    }
}

/// Whether a placed tile holds a quest that is still watched.
pub open spec fn is_active_quest(t: PlacedTile) -> bool {
    t.tile is Quest && !t.quest_finalized
}

/// The number of placed tiles holding a watched quest.
pub open spec fn active_quests_count(ts: Seq<PlacedTile>) -> nat
    decreases ts.len(),
{
    if ts.len() == 0 {
        0
    } else {
        active_quests_count(ts.drop_last()) + if is_active_quest(ts.last()) {
            1nat
        } else {
            0nat
        }
    }
}

/// A placed tile's turn leaves room for a zero placement turn too.
pub proof fn lemma_tile_fits_zero(t: PlacedTile)
    requires
        tile_ok(t),
    ensures
        tile_fits(t.tile, 0),
{
    match t.tile {
        GeneratedTile::Normal { segments, .. } => {
            assert forall|i: int| 0 <= i < segments@.len() implies #[trigger] segments@[i].rotation + 0nat + 5 <= usize::MAX by {
                assert(segments@[i].rotation + t.rotation + 5 <= usize::MAX);
            }
        },
        _ => {},
    }
}

impl Board {
    /// The elements of terrain `gt` a tile carries over all its segments (not only those
    /// connected into one group).
    pub fn get_tile_element_count(&self, tile: &GeneratedTile, gt: GroupType) -> (r: usize)
        requires
            tile_fits(*tile, 0),
        ensures
            r == spec_tile_element_count(*tile, gt),
    {
        tile_element_count(tile, gt)
    }

    /// What the groups connected to the quest tile at `pos` gather for terrain
    /// `group_type`, less the quest tile's own share.
    pub fn get_quest_external_count(&self, pos: (i32, i32), group_type: GroupType) -> (r: usize)
        requires
            self.wf(),
        ensures
            r == spec_external_count(self, pos, group_type),
    {
        let gids = self.get_group_ids_for_tile(pos, group_type);
        if gids.len() == 0 {
            return 0;
        }
        let quest_own_elements: usize = match self.find_tile(pos) {
            Some(ti) => {
                match group_type {
                    GroupType::Forest | GroupType::Village | GroupType::Water | GroupType::Agriculture => {
                        proof {
                            assert(tile_ok(self.placed_tiles@[ti as int]));
                            lemma_tile_fits_zero(self.placed_tiles@[ti as int]);
                        }
                        self.get_tile_element_count(&self.placed_tiles[ti].tile, group_type)
                    },
                    _ => 1,
                }
            },
            None => 0,
        };
        let mut total: usize = 0;
        let mut i: usize = 0;
        proof {
            lemma_sum_ids_bound(self.groups@, gids@, group_type);
        }
        assert(gids@.take(0) =~= Seq::<usize>::empty());
        while i < gids.len()
            invariant
                self.wf(),
                i <= gids.len(),
                gids@.no_duplicates(),
                total == sum_ids(self.group_map(), gids@.take(i as int), group_type),
                sum_ids(self.group_map(), gids@, group_type) <= usize::MAX,
            decreases gids.len() - i,
        {
            proof {
                assert(gids@.take(i + 1).drop_last() =~= gids@.take(i as int));
                assert(gids@.take(i + 1).no_duplicates());
                lemma_sum_ids_prefix(self.group_map(), gids@, group_type, i + 1);
            }
            match self.find_group(gids[i]) {
                Some(gi) => {
                    let group = &self.groups[gi];
                    let count = match group_type {
                        GroupType::Forest | GroupType::Village | GroupType::Water | GroupType::Agriculture => group.total_element_count,
                        _ => group.total_segment_count,
                    };
                    total = total + count;
                },
                None => {},
            }
            i += 1;
        }
        assert(gids@.take(gids@.len() as int) =~= gids@);
        if total > quest_own_elements {
            total - quest_own_elements
        } else {
            0
        }
    }

    /// The open edges of terrain `group_type` that the listed tiles (each position listed
    /// once) show; with a hover tile, its position counts as occupied and its edges
    /// replace those of a tile there.
    pub fn count_open_edges_for_tiles(
        &self,
        member_tiles: &Vec<(i32, i32)>,
        group_type: GroupType,
        hover_pos: Option<((i32, i32), &HexEdgeConfig)>,
    ) -> (r: usize)
        requires
            self.wf(),
            member_tiles@.no_duplicates(),
            member_tiles@.len() * 6 <= usize::MAX,
            hover_pos matches Some(h) ==> coord_ok(h.0.0) && coord_ok(h.0.1),
        ensures
            r == open_edges_sum(self, member_tiles@, group_type, match hover_pos {
                Some(h) => Some((h.0, h.1.edges@)),
                None => None,
            }),
    {
        let ghost hv: Option<((i32, i32), Seq<EdgeType>)> = match hover_pos {
            Some(h) => Some((h.0, h.1.edges@)),
            None => None,
        };
        let mut open_edges: usize = 0;
        let mut i: usize = 0;
        assert(member_tiles@.take(0) =~= Seq::<(i32, i32)>::empty());
        while i < member_tiles.len()
            invariant
                self.wf(),
                i <= member_tiles.len(),
                member_tiles@.len() * 6 <= usize::MAX,
                hover_pos matches Some(h) ==> coord_ok(h.0.0) && coord_ok(h.0.1),
                hv == (match hover_pos {
                    Some(h) => Some((h.0, h.1.edges@)),
                    None => None::<((i32, i32), Seq<EdgeType>)>,
                }),
                open_edges == open_edges_sum(self, member_tiles@.take(i as int), group_type, hv),
                open_edges <= i * 6,
            decreases member_tiles.len() - i,
        {
            let m_pos = member_tiles[i];
            proof {
                assert(member_tiles@.take(i + 1).drop_last() =~= member_tiles@.take(i as int));
                assert(member_tiles@.take(i + 1).last() == m_pos);
                assert((i + 1) * 6 <= member_tiles@.len() * 6) by (nonlinear_arith)
                    requires i + 1 <= member_tiles@.len();
            }
            let edges_opt: Option<[EdgeType; 6]> = match hover_pos {
                Some(h) => {
                    if m_pos.0 == h.0.0 && m_pos.1 == h.0.1 {
                        Some(h.1.edges)
                    } else {
                        match self.find_tile(m_pos) {
                            Some(ti) => Some(self.placed_tiles[ti].edge_config.edges),
                            None => None,
                        }
                    }
                },
                None => {
                    match self.find_tile(m_pos) {
                        Some(ti) => Some(self.placed_tiles[ti].edge_config.edges),
                        None => None,
                    }
                },
            };
            match edges_opt {
                None => {
                    proof {
                        lemma_tile_open_edges_none(self, m_pos, group_type, hv, 6);
                    }
                },
                Some(edges) => {
                    proof {
                        if !hover_at(hv, m_pos) {
                            let ti = choose|ti: int| 0 <= ti < self.placed_tiles@.len() && tile_key()(self.placed_tiles@[ti]) == m_pos;
                            lemma_keyed_dom(self.placed_tiles@, tile_key(), m_pos);
                        }
                    }
                    let ghost coords_ok = coord_ok(m_pos.0) && coord_ok(m_pos.1);
                    proof {
                        if !hover_at(hv, m_pos) {
                            lemma_keyed_value_key(self.placed_tiles@, tile_key(), m_pos);
                            let k = choose|k: int| 0 <= k < self.placed_tiles@.len() && self.placed_tiles@[k] == self.tiles()[m_pos];
                            assert(tile_ok(self.placed_tiles@[k]));
                        }
                    }
                    let mut dir: usize = 0;
                    let mut here: usize = 0;
                    while dir < 6
                        invariant
                            self.wf(),
                            coord_ok(m_pos.0) && coord_ok(m_pos.1),
                            dir <= 6,
                            shown_edges(self, m_pos, hv) == Some(edges@),
                            hover_pos matches Some(h) ==> coord_ok(h.0.0) && coord_ok(h.0.1),
                            hv == (match hover_pos {
                                Some(h) => Some((h.0, h.1.edges@)),
                                None => None::<((i32, i32), Seq<EdgeType>)>,
                            }),
                            here == tile_open_edges(self, m_pos, group_type, hv, dir as nat),
                            here <= dir,
                        decreases 6 - dir,
                    {
                        if edges[dir].to_group_type() == Some(group_type) {
                            let n_pos = get_neighbor_pos(m_pos.0, m_pos.1, dir);
                            let is_occupied = self.find_tile(n_pos).is_some() || match hover_pos {
                                Some(h) => n_pos.0 == h.0.0 && n_pos.1 == h.0.1,
                                None => false,
                            };
                            if !is_occupied {
                                here += 1;
                            }
                        }
                        dir += 1;
                    }
                    open_edges = open_edges + here;
                },
            }
            i += 1;
        }
        assert(member_tiles@.take(member_tiles@.len() as int) =~= member_tiles@);
        open_edges
    }
}

/// A prefix of the listed groups counts no more than all of them.
pub proof fn lemma_sum_ids_prefix(gm: Map<usize, ElementGroup>, ids: Seq<usize>, gt: GroupType, k: int)
    requires
        0 <= k <= ids.len(),
    ensures
        sum_ids(gm, ids.take(k), gt) <= sum_ids(gm, ids, gt),
    decreases ids.len(),
{
    if k < ids.len() {
        assert(ids.drop_last().take(k) =~= ids.take(k));
        lemma_sum_ids_prefix(gm, ids.drop_last(), gt, k);
    } else {
        assert(ids.take(k) =~= ids);
    }
}

/// A position that shows no edges has no open edges.
pub proof fn lemma_tile_open_edges_none(
    b: &Board,
    m: (i32, i32),
    gt: GroupType,
    hover: Option<((i32, i32), Seq<EdgeType>)>,
    n: nat,
)
    requires
        shown_edges(b, m, hover) is None,
    ensures
        tile_open_edges(b, m, gt, hover, n) == 0,
    decreases n,
{
    if n > 0 {
        lemma_tile_open_edges_none(b, m, gt, hover, (n - 1) as nat);
    }
}

/// A list without repetition whose entries are placed tiles is no longer than the board.
pub proof fn lemma_placed_list_len(b: &Board, s: Seq<(i32, i32)>)
    requires
        b.wf(),
        s.no_duplicates(),
        forall|k: int| 0 <= k < s.len() ==> b.tiles().dom().contains(#[trigger] s[k]),
    ensures
        s.len() <= b.placed_tiles@.len(),
{
    lemma_keyed_len(b.placed_tiles@, tile_key());
    s.unique_seq_to_set();
    assert(s.to_set().subset_of(b.tiles().dom())) by {
        assert forall|x: (i32, i32)| s.to_set().contains(x) implies b.tiles().dom().contains(x) by {
            let k = choose|k: int| 0 <= k < s.len() && s[k] == x;
        }
    };
    vstd::set_lib::lemma_len_subset(s.to_set(), b.tiles().dom());
}

/// The union of members lists no position twice, and each of its positions is a
/// member of one of the listed groups (or was already in `s`).
pub proof fn lemma_add_unique(s: Seq<(i32, i32)>, w: Seq<(i32, i32)>)
    requires
        s.no_duplicates(),
    ensures
        add_unique(s, w).no_duplicates(),
        forall|k: int| 0 <= k < add_unique(s, w).len() ==> s.contains(#[trigger] add_unique(s, w)[k]) || w.contains(add_unique(s, w)[k]),
    decreases w.len(),
{
    if w.len() > 0 {
        lemma_add_unique(s, w.drop_last());
        let prev = add_unique(s, w.drop_last());
        assert forall|k: int| 0 <= k < add_unique(s, w).len() implies s.contains(#[trigger] add_unique(s, w)[k]) || w.contains(add_unique(s, w)[k]) by {
            if k < prev.len() {
                assert(add_unique(s, w)[k] == prev[k]);
                if w.drop_last().contains(prev[k]) {
                    let j = choose|j: int| 0 <= j < w.drop_last().len() && w.drop_last()[j] == prev[k];
                    assert(w[j] == prev[k]);
                }
            } else {
                assert(add_unique(s, w)[k] == w.last());
                assert(w[w.len() - 1] == w.last());
            }
        }
    }
}

/// The members united from groups of a consistent board are distinct placed tiles.
pub proof fn lemma_union_members(b: &Board, ids: Seq<usize>)
    requires
        b.wf(),
    ensures
        union_members(b.group_map(), ids).no_duplicates(),
        forall|k: int| 0 <= k < union_members(b.group_map(), ids).len() ==> b.tiles().dom().contains(
            #[trigger] union_members(b.group_map(), ids)[k],
        ),
    decreases ids.len(),
{
    if ids.len() > 0 {
        lemma_union_members(b, ids.drop_last());
        let prev = union_members(b.group_map(), ids.drop_last());
        if b.group_map().dom().contains(ids.last()) {
            let w = b.group_map()[ids.last()].member_tiles@;
            lemma_add_unique(prev, w);
            assert(group_ok(b, ids.last()));
            assert forall|k: int| 0 <= k < union_members(b.group_map(), ids).len() implies b.tiles().dom().contains(
                #[trigger] union_members(b.group_map(), ids)[k],
            ) by {
                let x = union_members(b.group_map(), ids)[k];
                if prev.contains(x) {
                    let j = choose|j: int| 0 <= j < prev.len() && prev[j] == x;
                } else {
                    let j = choose|j: int| 0 <= j < w.len() && w[j] == x;
                }
            }
        }
    }
}

/// Appends the entries of `w` that `v` does not hold yet.
pub(crate) fn append_unique(v: &mut Vec<(i32, i32)>, w: &Vec<(i32, i32)>)
    ensures
        final(v)@ == add_unique(old(v)@, w@),
{
    let mut i: usize = 0;
    let ghost orig = v@;
    assert(w@.take(0) =~= Seq::<(i32, i32)>::empty());
    while i < w.len()
        invariant
            i <= w.len(),
            v@ == add_unique(orig, w@.take(i as int)),
        decreases w.len() - i,
    {
        let p = w[i];
        assert(w@.take(i + 1).drop_last() =~= w@.take(i as int));
        let mut found = false;
        let mut k: usize = 0;
        while k < v.len()
            invariant
                k <= v.len(),
                found <==> exists|j: int| 0 <= j < k && v@[j] == p,
            decreases v.len() - k,
        {
            if v[k].0 == p.0 && v[k].1 == p.1 {
                found = true;
            }
            k += 1;
        }
        if !found {
            v.push(p);
        }
        i += 1;
    }
    assert(w@.take(w@.len() as int) =~= w@);
}

impl Board {
    /// The open edges of terrain `group_type` around the groups that the tile at `pos`
    /// belongs to (or around that tile alone when it belongs to none).
    pub fn count_group_open_edges(&self, pos: (i32, i32), group_type: GroupType) -> (r: usize)
        requires
            self.wf(),
        ensures
            r == open_edges_sum(self, quest_members(self, pos, group_type), group_type, None),
    {
        let gids = self.get_group_ids_for_tile(pos, group_type);
        let mut member_tiles: Vec<(i32, i32)> = Vec::new();
        let mut i: usize = 0;
        assert(gids@.take(0) =~= Seq::<usize>::empty());
        while i < gids.len()
            invariant
                self.wf(),
                i <= gids.len(),
                member_tiles@ == union_members(self.group_map(), gids@.take(i as int)),
            decreases gids.len() - i,
        {
            assert(gids@.take(i + 1).drop_last() =~= gids@.take(i as int));
            match self.find_group(gids[i]) {
                Some(gi) => {
                    append_unique(&mut member_tiles, &self.groups[gi].member_tiles);
                },
                None => {},
            }
            i += 1;
        }
        assert(gids@.take(gids@.len() as int) =~= gids@);
        proof {
            lemma_union_members(self, gids@);
            lemma_placed_list_len(self, member_tiles@);
        }
        if member_tiles.len() == 0 {
            member_tiles.push(pos);
            assert(member_tiles@ =~= seq![pos]);
        }
        assert(member_tiles@ == quest_members(self, pos, group_type));
        assert(member_tiles@.len() * 6 <= usize::MAX) by (nonlinear_arith)
            requires
                member_tiles@.len() <= self.placed_tiles@.len() || member_tiles@.len() == 1,
                self.placed_tiles@.len() * 6 <= usize::MAX,
        ;
        self.count_open_edges_for_tiles(&member_tiles, group_type, None)
    }

    /// The number of placed tiles whose quest is still watched.
    pub fn active_quest_count(&self) -> (r: i32)
        ensures
            r == active_quests_count(self.placed_tiles@) as i32,
    {
        let mut n: usize = 0;
        let mut i: usize = 0;
        assert(self.placed_tiles@.take(0) =~= Seq::<PlacedTile>::empty());
        while i < self.placed_tiles.len()
            invariant
                i <= self.placed_tiles@.len(),
                n == active_quests_count(self.placed_tiles@.take(i as int)),
                n <= i,
            decreases self.placed_tiles@.len() - i,
        {
            assert(self.placed_tiles@.take(i + 1).drop_last() =~= self.placed_tiles@.take(i as int));
            let pt = &self.placed_tiles[i];
            let is_quest = match &pt.tile {
                GeneratedTile::Quest { .. } => true,
                _ => false,
            };
            if is_quest && !pt.quest_finalized {
                n += 1;
            }
            i += 1;
        }
        assert(self.placed_tiles@.take(self.placed_tiles@.len() as int) =~= self.placed_tiles@);
        n as i32
    }

    /// The number still missing for the quest at `pos`: its bubble number less what its
    /// groups gather beyond it; 0 when no quest tile is there.
    pub fn get_quest_remaining_target(&self, pos: (i32, i32)) -> (r: usize)
        requires
            self.wf(),
        ensures
            r == spec_remaining_target(self, pos),
    {
        match self.find_tile(pos) {
            Some(ti) => {
                match &self.placed_tiles[ti].tile {
                    GeneratedTile::Quest { quest_data, .. } => {
                        proof {
                            assert(tile_ok(self.placed_tiles@[ti as int]));
                        }
                        let gt = quest_data.primary_group_type();
                        let external_count = self.get_quest_external_count(pos, gt);
                        let rem = quest_data.remaining_display_value();
                        if rem > external_count {
                            rem - external_count
                        } else {
                            0
                        }
                    },
                    _ => 0,
                }
            },
            None => 0,
        }
    }
}

/// The number still missing for the quest at `pos`.
pub open spec fn spec_remaining_target(b: &Board, pos: (i32, i32)) -> nat {
    if b.tiles().dom().contains(pos) {
        match b.tiles()[pos].tile {
            GeneratedTile::Quest { quest_data, .. } => {
                let ext = spec_external_count(b, pos, spec_primary_group_type(quest_data.quest_type@));
                let rem = spec_remaining_display(&quest_data);
                if rem > ext {
                    (rem - ext) as nat
                } else {
                    0
                }
            },
            _ => 0,
        }
    } else {
        0
    }
}

/// The status a quest reaches: a "more than" quest succeeds once the gathered count
/// reaches the target and fails when its groups have no open edge left; an "exactly"
/// quest succeeds on the target, fails beyond it, and fails without open edges.
pub open spec fn decide_status(eq: EqualityComparison, ext: nat, target: nat, open: nat) -> FulfillmentStatus {
    match eq {
        EqualityComparison::MoreThan => if ext >= target {
            FulfillmentStatus::Success
        } else if open == 0 {
            FulfillmentStatus::Failed
        } else {
            FulfillmentStatus::Incomplete
        },
        EqualityComparison::Exactly => if ext == target {
            FulfillmentStatus::Success
        } else if ext > target {
            FulfillmentStatus::Failed
        } else if open == 0 {
            FulfillmentStatus::Failed
        } else {
            FulfillmentStatus::Incomplete
        },
    }
}

/// The status the quest of a watched quest tile reaches on board `b`; nothing for other tiles.
pub open spec fn quest_outcome(b: &Board, t: PlacedTile) -> Option<FulfillmentStatus> {
    if is_active_quest(t) {
        match t.tile {
            GeneratedTile::Quest { quest_data, .. } => {
                let pos = (t.q, t.r);
                let gt = spec_primary_group_type(quest_data.quest_type@);
                Some(decide_status(quest_data.equality, spec_external_count(b, pos, gt), spec_remaining_display(&quest_data),
                    open_edges_sum(b, quest_members(b, pos, gt), gt, None)))
            },
            _ => None,
        }
    } else {
        None
    }
}

/// A tile after its quest was evaluated to `o`: the status is recorded, and a success or
/// failure is final.
pub open spec fn evaluated_tile(t: PlacedTile, o: Option<FulfillmentStatus>) -> PlacedTile {
    match o {
        Some(st) => PlacedTile {
            q: t.q,
            r: t.r,
            tile: t.tile,
            rotation: t.rotation,
            edge_config: t.edge_config,
            quest_status: Some(st),
            quest_finalized: st != FulfillmentStatus::Incomplete,
            quest_id: t.quest_id,
        },
        None => t,
    }
}

/// How many of the tiles' quests are decided (succeed or fail) on board `b`.
pub open spec fn count_resolved(b: &Board, ts: Seq<PlacedTile>) -> nat
    decreases ts.len(),
{
    if ts.len() == 0 {
        0
    } else {
        count_resolved(b, ts.drop_last()) + match quest_outcome(b, ts.last()) {
            Some(st) => if st != FulfillmentStatus::Incomplete {
                1nat
            } else {
                0nat
            },
            None => 0nat,
        }
    }
}

/// How many of the tiles' quests succeed on board `b`.
pub open spec fn count_succeeded(b: &Board, ts: Seq<PlacedTile>) -> nat
    decreases ts.len(),
{
    if ts.len() == 0 {
        0
    } else {
        count_succeeded(b, ts.drop_last()) + if quest_outcome(b, ts.last()) == Some(FulfillmentStatus::Success) {
            1nat
        } else {
            0nat
        }
    }
}

/// The registered ids of the tiles' quests decided on board `b`, in order.
pub open spec fn resolved_ids(b: &Board, ts: Seq<PlacedTile>) -> Seq<usize>
    decreases ts.len(),
{
    if ts.len() == 0 {
        Seq::<usize>::empty()
    } else {
        let prev = resolved_ids(b, ts.drop_last());
        match quest_outcome(b, ts.last()) {
            Some(st) => if st != FulfillmentStatus::Incomplete && ts.last().quest_id is Some {
                prev.push(ts.last().quest_id->0)
            } else {
                prev
            },
            None => prev,
        }
    }
}

/// The open quests left after dropping those with the listed ids.
pub open spec fn without_ids(qs: Seq<ActiveQuest>, ids: Seq<usize>) -> Seq<ActiveQuest>
    decreases ids.len(),
{
    if ids.len() == 0 {
        qs
    } else {
        without_ids(qs, ids.drop_last()).filter(other_than(ids.last()))
    }
}

/// Counting keeps within the number of tiles.
pub proof fn lemma_counts_bounded(b: &Board, ts: Seq<PlacedTile>)
    ensures
        count_resolved(b, ts) <= ts.len(),
        count_succeeded(b, ts) <= count_resolved(b, ts),
    decreases ts.len(),
{
    if ts.len() > 0 {
        lemma_counts_bounded(b, ts.drop_last());
    }
}

impl Board {
    /// The status each tile's quest reaches now, for watched quest tiles.
    fn quest_outcomes(&self) -> (r: Vec<Option<FulfillmentStatus>>)
        requires
            self.wf(),
        ensures
            r@.len() == self.placed_tiles@.len(),
            forall|i: int| 0 <= i < r@.len() ==> #[trigger] r@[i] == quest_outcome(self, self.placed_tiles@[i]),
    {
        let mut out: Vec<Option<FulfillmentStatus>> = Vec::new();
        let mut i: usize = 0;
        while i < self.placed_tiles.len()
            invariant
                self.wf(),
                i <= self.placed_tiles@.len(),
                out@.len() == i,
                forall|k: int| 0 <= k < i ==> #[trigger] out@[k] == quest_outcome(self, self.placed_tiles@[k]),
            decreases self.placed_tiles@.len() - i,
        {
            let pt = &self.placed_tiles[i];
            let o = if pt.quest_finalized {
                None
            } else {
                match &pt.tile {
                    GeneratedTile::Quest { quest_data, .. } => {
                        proof {
                            assert(tile_ok(self.placed_tiles@[i as int]));
                        }
                        let pos = (pt.q, pt.r);
                        let target_count = quest_data.remaining_display_value();
                        let equality = quest_data.equality;
                        let group_type = quest_data.primary_group_type();
                        let external_count = self.get_quest_external_count(pos, group_type);
                        let open_edges = self.count_group_open_edges(pos, group_type);
                        let st = match equality {
                            EqualityComparison::MoreThan => {
                                if external_count >= target_count {
                                    FulfillmentStatus::Success
                                } else if open_edges == 0 {
                                    FulfillmentStatus::Failed
                                } else {
                                    FulfillmentStatus::Incomplete
                                }
                            },
                            EqualityComparison::Exactly => {
                                if external_count == target_count {
                                    FulfillmentStatus::Success
                                } else if external_count > target_count {
                                    FulfillmentStatus::Failed
                                } else if open_edges == 0 {
                                    FulfillmentStatus::Failed
                                } else {
                                    FulfillmentStatus::Incomplete
                                }
                            },
                        };
                        Some(st)
                    },
                    _ => None,
                }
            };
            out.push(o);
            i += 1;
        }
        out
    }

    /// Evaluates every watched quest on the board: records its status and makes a
    /// success or failure final. Returns how many quests were decided and how many of
    /// them succeeded. A given quest manager gains one level per success and drops the
    /// decided quests.
    pub fn evaluate_all_active_quests(&mut self, quest_manager: Option<&mut QuestManager>) -> (r: (usize, usize))
        requires
            old(self).wf(),
            quest_manager matches Some(qm) ==> qm.level + old(self).placed_tiles@.len() <= usize::MAX,
        ensures
            final(self).wf(),
            final(self).placed_tiles@ == old(self).placed_tiles@.map_values(|t: PlacedTile| evaluated_tile(t, quest_outcome(old(self), t))),
            final(self).groups == old(self).groups,
            final(self).edge_to_group == old(self).edge_to_group,
            final(self).next_group_id == old(self).next_group_id,
            tallied(old(self)) ==> tallied(final(self)),
            r.0 == count_resolved(old(self), old(self).placed_tiles@),
            r.1 == count_succeeded(old(self), old(self).placed_tiles@),
            quest_manager matches Some(qm) ==> final(qm).level == qm.level + r.1 && final(qm).active_quests@ == without_ids(
                qm.active_quests@,
                resolved_ids(old(self), old(self).placed_tiles@),
            ) && final(qm).next_quest_id == qm.next_quest_id && final(qm).upcoming_quest_counts == qm.upcoming_quest_counts
                && final(qm).last_computed_count == qm.last_computed_count && final(qm).prev_tile_was_quest == qm.prev_tile_was_quest,
    {
        let outcomes = self.quest_outcomes();
        let ghost ob = *self;
        let ghost f = |t: PlacedTile| evaluated_tile(t, quest_outcome(&ob, t));
        let mut resolved_count: usize = 0;
        let mut succeeded_count: usize = 0;
        let mut ids: Vec<usize> = Vec::new();
        let mut i: usize = 0;
        assert(ob.placed_tiles@.take(0) =~= Seq::<PlacedTile>::empty());
        while i < self.placed_tiles.len()
            invariant
                ob.wf(),
                self.placed_tiles@.len() == ob.placed_tiles@.len(),
                outcomes@.len() == ob.placed_tiles@.len(),
                forall|k: int| 0 <= k < outcomes@.len() ==> #[trigger] outcomes@[k] == quest_outcome(&ob, ob.placed_tiles@[k]),
                i <= self.placed_tiles@.len(),
                forall|k: int| 0 <= k < i ==> #[trigger] self.placed_tiles@[k] == f(ob.placed_tiles@[k]),
                forall|k: int| i <= k < self.placed_tiles@.len() ==> #[trigger] self.placed_tiles@[k] == ob.placed_tiles@[k],
                self.groups == ob.groups,
                self.edge_to_group == ob.edge_to_group,
                self.next_group_id == ob.next_group_id,
                resolved_count == count_resolved(&ob, ob.placed_tiles@.take(i as int)),
                succeeded_count == count_succeeded(&ob, ob.placed_tiles@.take(i as int)),
                ids@ == resolved_ids(&ob, ob.placed_tiles@.take(i as int)),
                f == (|t: PlacedTile| evaluated_tile(t, quest_outcome(&ob, t))),
            decreases self.placed_tiles@.len() - i,
        {
            proof {
                assert(ob.placed_tiles@.take(i + 1).drop_last() =~= ob.placed_tiles@.take(i as int));
                assert(ob.placed_tiles@.take(i + 1).last() == ob.placed_tiles@[i as int]);
                lemma_counts_bounded(&ob, ob.placed_tiles@.take(i as int));
            }
            match outcomes[i] {
                Some(st) => {
                    self.placed_tiles[i].quest_status = Some(st);
                    if st == FulfillmentStatus::Success {
                        succeeded_count += 1;
                    }
                    if st == FulfillmentStatus::Success || st == FulfillmentStatus::Failed {
                        resolved_count += 1;
                        match self.placed_tiles[i].quest_id {
                            Some(qid) => {
                                ids.push(qid);
                            },
                            None => {},
                        }
                        self.placed_tiles[i].quest_finalized = true;
                    }
                },
                None => {},
            }
            assert(self.placed_tiles@[i as int] == f(ob.placed_tiles@[i as int]));
            i += 1;
        }
        proof {
            assert(ob.placed_tiles@.take(ob.placed_tiles@.len() as int) =~= ob.placed_tiles@);
            assert(self.placed_tiles@ =~= ob.placed_tiles@.map_values(f));
            assert forall|x: PlacedTile| #[trigger] tile_key()(f(x)) == tile_key()(x) by {}
            lemma_keyed_map_values(ob.placed_tiles@, tile_key(), f);
            lemma_tally_map(ob.placed_tiles@, f);
            assert(self.tiles().dom() =~= ob.tiles().dom());
            assert forall|k: int| 0 <= k < self.placed_tiles@.len() implies #[trigger] tile_ok(self.placed_tiles@[k]) by {
                assert(tile_ok(ob.placed_tiles@[k]));
            }
            assert forall|id: usize| #[trigger] self.group_map().dom().contains(id) implies group_ok(self, id) by {
                assert(group_ok(&ob, id));
            }
            assert forall|key: ((i32, i32), usize)| #[trigger] self.links().dom().contains(key) implies link_ok(self, key) by {
                assert(link_ok(&ob, key));
            }
        }
        match quest_manager {
            Some(qm) => {
                let ghost q0 = qm.active_quests@;
                proof {
                    lemma_counts_bounded(&ob, ob.placed_tiles@);
                }
                let ghost m0 = *qm;
                qm.gain_levels(succeeded_count);
                let ghost lvl = qm.level;
                let mut k: usize = 0;
                assert(ids@.take(0) =~= Seq::<usize>::empty());
                while k < ids.len()
                    invariant
                        k <= ids.len(),
                        qm.active_quests@ == without_ids(q0, ids@.take(k as int)),
                        qm.level == lvl,
                        qm.next_quest_id == m0.next_quest_id,
                        qm.upcoming_quest_counts == m0.upcoming_quest_counts,
                        qm.last_computed_count == m0.last_computed_count,
                        qm.prev_tile_was_quest == m0.prev_tile_was_quest,
                    decreases ids.len() - k,
                {
                    assert(ids@.take(k + 1).drop_last() =~= ids@.take(k as int));
                    qm.remove_quest(ids[k]);
                    k += 1;
                }
                assert(ids@.take(ids@.len() as int) =~= ids@);
            },
            None => {},
        }
        (resolved_count, succeeded_count)
    }
}


/// What placing `tile` turned by `rot` at `(q, r)` makes of board `b0`: the tile is
/// added as placed, the others stay, and its segments join the terrain groups.
pub open spec fn placed_on(b0: &Board, b1: &Board, q: i32, r: i32, tile: GeneratedTile, rot: usize) -> bool {
    &&& b1.wf()
    &&& b1.tiles().dom() == b0.tiles().dom().insert((q, r))
    &&& forall|p: (i32, i32)| #[trigger] b0.tiles().dom().contains(p) ==> b1.tiles()[p] == b0.tiles()[p]
    &&& placed_as(b1.tiles()[(q, r)], q, r, tile, rot)
    &&& b1.state() == apply_segments(b1.tiles(), b0.state(), (q, r), rotated(spec_hex_edges(tile), rot as nat),
        spec_segments(tile, rot as nat))
    &&& sum_elements(b1.groups@) == sum_elements(b0.groups@) + segs_elements(spec_segments(tile, rot as nat))
    &&& sum_segments(b1.groups@) == sum_segments(b0.groups@) + spec_segments(tile, rot as nat).len()
}

/// What evaluating the watched quests makes of board `b0`: each tile records the
/// status its quest reaches, the groups stay.
pub open spec fn evaluated_on(b0: &Board, b1: &Board) -> bool {
    &&& b1.wf()
    &&& b1.placed_tiles@ == b0.placed_tiles@.map_values(|t: PlacedTile| evaluated_tile(t, quest_outcome(b0, t)))
    &&& b1.groups == b0.groups
    &&& b1.edge_to_group == b0.edge_to_group
    &&& b1.next_group_id == b0.next_group_id
}

/// A quest manager's counters leave room for one more placement on a board of `n` tiles.
pub open spec fn manager_fits(qm: &QuestManager, n: nat) -> bool {
    &&& qm.level + n + 1 <= usize::MAX
    &&& i32::MIN + n + 2 <= qm.last_computed_count <= i32::MAX - 2
    &&& n + 1 < i32::MAX
}

/// What the quest manager `m0` becomes after a placement of a quest tile or not
/// (`is_quest`) on which the quests of board `mid` were evaluated.
pub open spec fn manager_after(m0: &QuestManager, m1: &QuestManager, mid: &Board, is_quest: bool) -> bool {
    &&& m1.level == m0.level + count_succeeded(mid, mid.placed_tiles@)
    &&& m1.active_quests@ == without_ids(m0.active_quests@, resolved_ids(mid, mid.placed_tiles@))
    &&& m1.last_computed_count == next_count(m0.last_computed_count, is_quest, m0.prev_tile_was_quest,
        count_resolved(mid, mid.placed_tiles@) as usize)
    &&& m1.upcoming_quest_counts@ == m0.upcoming_quest_counts@.push(m1.last_computed_count)
    &&& m1.prev_tile_was_quest == is_quest
    &&& m1.next_quest_id == m0.next_quest_id
}

impl Board {
    /// Places a tile and, when it was placed, evaluates the watched quests and lets the
    /// quest manager, if any, take the placement into account. Returns whether the tile
    /// was placed and how many quests succeeded; a refused placement changes nothing.
    pub fn place_tile_with_manager(
        &mut self,
        q: i32,
        r: i32,
        tile: GeneratedTile,
        rotation: usize,
        quest_manager: Option<&mut QuestManager>,
    ) -> (res: (bool, usize))
        requires
            old(self).wf(),
            coord_ok(q),
            coord_ok(r),
            placement_fits(old(self), tile, rotation),
            quest_manager matches Some(qm) ==> manager_fits(qm, old(self).placed_tiles@.len()),
        ensures
            res.0 == spec_can_place(old(self), q, r, tile, rotation as nat),
            !res.0 ==> *final(self) == *old(self) && res.1 == 0,
            tallied(old(self)) ==> tallied(final(self)),
            !res.0 ==> (quest_manager matches Some(qm) ==> *final(qm) == *qm),
            res.0 ==> exists|mid: Board| #[trigger] placed_on(old(self), &mid, q, r, tile, rotation)
                && evaluated_on(&mid, final(self))
                && res.1 == count_succeeded(&mid, mid.placed_tiles@)
                && (quest_manager matches Some(qm) ==> manager_after(qm, final(qm), &mid, tile is Quest)),
    {
        let is_quest = match &tile {
            GeneratedTile::Quest { .. } => true,
            _ => false,
        };
        let ghost t0 = tile;
        let ok = self.place_tile(q, r, tile, rotation);
        if !ok {
            return (false, 0);
        }
        let ghost mid = *self;
        assert(placed_on(old(self), &mid, q, r, t0, rotation));
        proof {
            lemma_keyed_len(mid.placed_tiles@, tile_key());
            lemma_keyed_len(old(self).placed_tiles@, tile_key());
            lemma_counts_bounded(&mid, mid.placed_tiles@);
        }
        assert(mid.placed_tiles@.len() == old(self).placed_tiles@.len() + 1) by {
            assert(!old(self).tiles().dom().contains((q, r)));
        }
        match quest_manager {
            Some(qm) => {
                let (quests_resolved, quests_succeeded) = self.evaluate_all_active_quests(Some(&mut *qm));
                qm.update_after_placement(is_quest, quests_resolved);
                (true, quests_succeeded)
            },
            None => {
                let (_quests_resolved, quests_succeeded) = self.evaluate_all_active_quests(None);
                (true, quests_succeeded)
            },
        }
    }
}


/// The turns below `n` at which `tile` may be placed at `(q, r)`, in increasing order.
pub open spec fn valid_rotations(b: &Board, q: i32, r: i32, tile: GeneratedTile, n: nat) -> Seq<usize>
    decreases n,
{
    if n == 0 {
        Seq::<usize>::empty()
    } else {
        let prev = valid_rotations(b, q, r, tile, (n - 1) as nat);
        if spec_can_place(b, q, r, tile, (n - 1) as nat) {
            prev.push((n - 1) as usize)
        } else {
            prev
        }
    }
}

/// The turn that follows `current` among the valid turns `valid` (cyclically, forward or
/// backward); the first valid turn when `current` is not valid; and one step on from
/// `current` when no turn is valid.
pub open spec fn next_rotation(valid: Seq<usize>, current: usize, forward: bool) -> usize {
    if valid.len() == 0 {
        ((current + if forward { 1int } else { 5int }) % 6) as usize
    } else if valid.contains(current) {
        let idx = valid.index_of(current);
        if forward {
            valid[(idx + 1) % (valid.len() as int)]
        } else {
            valid[(idx + valid.len() - 1) % (valid.len() as int)]
        }
    } else {
        valid[0]
    }
}

/// The valid turns below `n` are increasing, below `n`, and each one is valid.
pub proof fn lemma_valid_rotations(b: &Board, q: i32, r: i32, tile: GeneratedTile, n: nat)
    requires
        n <= 6,
    ensures
        valid_rotations(b, q, r, tile, n).len() <= n,
        forall|i: int, j: int| 0 <= i < j < valid_rotations(b, q, r, tile, n).len() ==> #[trigger] valid_rotations(b, q, r, tile, n)[i] < #[trigger] valid_rotations(b, q, r, tile, n)[j],
        forall|i: int| 0 <= i < valid_rotations(b, q, r, tile, n).len() ==> #[trigger] valid_rotations(b, q, r, tile, n)[i] < n,
        forall|i: int| 0 <= i < valid_rotations(b, q, r, tile, n).len() ==> spec_can_place(b, q, r, tile, #[trigger] valid_rotations(b, q, r, tile, n)[i] as nat),
        valid_rotations(b, q, r, tile, n).no_duplicates(),
    decreases n,
{
    let v = valid_rotations(b, q, r, tile, n);
    if n > 0 {
        lemma_valid_rotations(b, q, r, tile, (n - 1) as nat);
        let prev = valid_rotations(b, q, r, tile, (n - 1) as nat);
        if spec_can_place(b, q, r, tile, (n - 1) as nat) {
            assert(v == prev.push((n - 1) as usize));
            assert forall|i: int, j: int| 0 <= i < j < v.len() implies #[trigger] v[i] < #[trigger] v[j] by {
                if j < prev.len() {
                    assert(v[i] == prev[i] && v[j] == prev[j]);
                } else {
                    assert(v[i] == prev[i]);
                }
            }
            assert forall|i: int| 0 <= i < v.len() implies spec_can_place(b, q, r, tile, #[trigger] v[i] as nat) by {
                if i < prev.len() {
                    assert(v[i] == prev[i]);
                }
            }
        }
    }
    assert forall|i: int, j: int| 0 <= i < v.len() && 0 <= j < v.len() && i != j implies v[i] != v[j] by {
        if i < j {
            assert(v[i] < v[j]);
        } else {
            assert(v[j] < v[i]);
        }
    }
}

impl Board {
    /// The next turn, forward or backward from `current_rotation`, at which `tile` may be
    /// placed at `(q, r)`: the neighbour of the current turn in the cycle of valid turns,
    /// the first valid turn when the current one is not valid, or simply the next turn
    /// when none is valid.
    pub fn get_next_valid_rotation(&self, q: i32, r: i32, tile: &GeneratedTile, current_rotation: usize, forward: bool) -> (res: usize)
        requires
            self.wf(),
            coord_ok(q),
            coord_ok(r),
            current_rotation + 5 <= usize::MAX,
        ensures
            res == next_rotation(valid_rotations(self, q, r, *tile, 6), current_rotation, forward),
    {
        let mut valid: Vec<usize> = Vec::new();
        let mut rot: usize = 0;
        while rot < 6
            invariant
                self.wf(),
                coord_ok(q),
                coord_ok(r),
                rot <= 6,
                valid@ == valid_rotations(self, q, r, *tile, rot as nat),
            decreases 6 - rot,
        {
            if self.can_place_tile(q, r, tile, rot) {
                valid.push(rot);
            }
            rot += 1;
        }
        proof {
            lemma_valid_rotations(self, q, r, *tile, 6);
        }
        if valid.len() == 0 {
            return (current_rotation + if forward { 1 } else { 5 }) % 6;
        }
        let mut i: usize = 0;
        while i < valid.len()
            invariant
                i <= valid.len(),
                valid@ == valid_rotations(self, q, r, *tile, 6),
                valid@.no_duplicates(),
                0 < valid@.len() <= 6,
                forall|j: int| 0 <= j < i ==> valid@[j] != current_rotation,
            decreases valid.len() - i,
        {
            if valid[i] == current_rotation {
                proof {
                    let k = valid@.index_of(current_rotation);
                    assert(valid@.contains(current_rotation));
                    assert(valid@[k] == current_rotation);
                    assert(k == i);
                }
                let len = valid.len();
                if forward {
                    return valid[(i + 1) % len];
                } else {
                    return valid[(i + len - 1) % len];
                }
            }
            i += 1;
        }
        valid[0]
    }
}


/// A coordinate whose neighbours are themselves representable with their neighbours.
pub open spec fn inner_coord(x: i32) -> bool {
    i32::MIN + 1 < x && x < i32::MAX - 1
}

/// Every placed tile lies on inner coordinates.
pub open spec fn all_inner(b: &Board) -> bool {
    forall|j: int| 0 <= j < b.placed_tiles@.len() ==> inner_coord(#[trigger] b.placed_tiles@[j].q) && inner_coord(
        b.placed_tiles@[j].r,
    )
}

/// Whether `tile` may be placed at `p` under one of the six turns.
pub open spec fn any_valid(b: &Board, p: (i32, i32), tile: GeneratedTile) -> bool {
    exists|rot: nat| rot < 6 && #[trigger] spec_can_place(b, p.0, p.1, tile, rot)
}

/// An empty position next to a placed tile.
pub open spec fn is_slot(b: &Board, p: (i32, i32)) -> bool {
    !b.tiles().dom().contains(p) && exists|t: (i32, i32), d: nat| d < 6 && b.tiles().dom().contains(t) && #[trigger] neighbor_of(t, d) == p
}

/// Whether one of the slots listed has position `p`.
pub open spec fn lists_slot(s: Seq<((i32, i32), bool)>, p: (i32, i32)) -> bool {
    exists|m: int| 0 <= m < s.len() && #[trigger] s[m].0 == p
}

impl Board {
    /// Whether `tile` may be placed at `(q, r)` under one of the six turns.
    fn any_rotation_fits(&self, q: i32, r: i32, tile: &GeneratedTile) -> (ok: bool)
        requires
            self.wf(),
            coord_ok(q),
            coord_ok(r),
        ensures
            ok == any_valid(self, (q, r), *tile),
    {
        let mut rot: usize = 0;
        while rot < 6
            invariant
                self.wf(),
                coord_ok(q),
                coord_ok(r),
                rot <= 6,
                forall|k: nat| k < rot ==> !#[trigger] spec_can_place(self, q, r, *tile, k),
            decreases 6 - rot,
        {
            if self.can_place_tile(q, r, tile, rot) {
                assert(spec_can_place(self, (q, r).0, (q, r).1, *tile, rot as nat));
                return true;
            }
            rot += 1;
        }
        false
    }

    /// The empty positions next to the board, each listed once with whether `tile` fits
    /// there under some turn; the centre alone (where anything fits) on an empty board.
    pub fn get_available_placement_slots(&self, tile: &GeneratedTile) -> (res: Vec<((i32, i32), bool)>)
        requires
            self.wf(),
            all_inner(self),
        ensures
            self.placed_tiles@.len() == 0 ==> res@ == seq![((0i32, 0i32), true)],
            self.placed_tiles@.len() > 0 ==> {
                &&& forall|a: int, c: int| 0 <= a < c < res@.len() ==> #[trigger] res@[a].0 != #[trigger] res@[c].0
                &&& forall|p: (i32, i32)| #[trigger] lists_slot(res@, p) <==> is_slot(self, p)
                &&& forall|m: int| 0 <= m < res@.len() ==> #[trigger] res@[m].1 == any_valid(self, res@[m].0, *tile)
            },
    {
        let mut slots: Vec<((i32, i32), bool)> = Vec::new();
        if self.placed_tiles.len() == 0 {
            slots.push(((0, 0), true));
            return slots;
        }
        let mut i: usize = 0;
        while i < self.placed_tiles.len()
            invariant
                self.wf(),
                all_inner(self),
                i <= self.placed_tiles@.len(),
                forall|a: int, c: int| 0 <= a < c < slots@.len() ==> #[trigger] slots@[a].0 != #[trigger] slots@[c].0,
                forall|p: (i32, i32)| #[trigger] lists_slot(slots@, p) ==> is_slot(self, p),
                forall|m: int| 0 <= m < slots@.len() ==> #[trigger] slots@[m].1 == any_valid(self, slots@[m].0, *tile),
                forall|j: int, d: nat| 0 <= j < i && d < 6 && !self.tiles().dom().contains(
                    #[trigger] neighbor_of((self.placed_tiles@[j].q, self.placed_tiles@[j].r), d),
                ) ==> lists_slot(slots@, neighbor_of((self.placed_tiles@[j].q, self.placed_tiles@[j].r), d)),
            decreases self.placed_tiles@.len() - i,
        {
            let pq = self.placed_tiles[i].q;
            let pr = self.placed_tiles[i].r;
            proof {
                lemma_keyed_at(self.placed_tiles@, tile_key(), i as int);
            }
            let mut dir: usize = 0;
            while dir < 6
                invariant
                    self.wf(),
                    all_inner(self),
                    i < self.placed_tiles@.len(),
                    pq == self.placed_tiles@[i as int].q,
                    pr == self.placed_tiles@[i as int].r,
                    self.tiles().dom().contains((pq, pr)),
                    inner_coord(pq),
                    inner_coord(pr),
                    dir <= 6,
                    forall|a: int, c: int| 0 <= a < c < slots@.len() ==> #[trigger] slots@[a].0 != #[trigger] slots@[c].0,
                    forall|p: (i32, i32)| #[trigger] lists_slot(slots@, p) ==> is_slot(self, p),
                    forall|m: int| 0 <= m < slots@.len() ==> #[trigger] slots@[m].1 == any_valid(self, slots@[m].0, *tile),
                    forall|j: int, d: nat| 0 <= j < i && d < 6 && !self.tiles().dom().contains(
                        #[trigger] neighbor_of((self.placed_tiles@[j].q, self.placed_tiles@[j].r), d),
                    ) ==> lists_slot(slots@, neighbor_of((self.placed_tiles@[j].q, self.placed_tiles@[j].r), d)),
                    forall|d: nat| d < dir && !self.tiles().dom().contains(#[trigger] neighbor_of((pq, pr), d)) ==> lists_slot(
                        slots@,
                        neighbor_of((pq, pr), d),
                    ),
                decreases 6 - dir,
            {
                let n_pos = get_neighbor_pos(pq, pr, dir);
                if self.find_tile(n_pos).is_none() {
                    let mut seen = false;
                    let mut k: usize = 0;
                    while k < slots.len()
                        invariant
                            k <= slots@.len(),
                            seen <==> exists|m: int| 0 <= m < k && #[trigger] slots@[m].0 == n_pos,
                        decreases slots@.len() - k,
                    {
                        if slots[k].0.0 == n_pos.0 && slots[k].0.1 == n_pos.1 {
                            seen = true;
                        }
                        k += 1;
                    }
                    if !seen {
                        let is_valid = self.any_rotation_fits(n_pos.0, n_pos.1, tile);
                        let ghost before = slots@;
                        slots.push((n_pos, is_valid));
                        proof {
                            assert(is_slot(self, n_pos)) by {
                                assert(neighbor_of((pq, pr), dir as nat) == n_pos);
                            }
                            assert forall|p: (i32, i32)| #[trigger] lists_slot(slots@, p) implies is_slot(self, p) by {
                                let m = choose|m: int| 0 <= m < slots@.len() && #[trigger] slots@[m].0 == p;
                                if m < before.len() {
                                    assert(before[m].0 == p);
                                    assert(lists_slot(before, p));
                                }
                            }
                            assert forall|p: (i32, i32)| #[trigger] lists_slot(before, p) implies lists_slot(slots@, p) by {
                                let m = choose|m: int| 0 <= m < before.len() && #[trigger] before[m].0 == p;
                                assert(slots@[m].0 == p);
                            }
                            assert(lists_slot(slots@, n_pos)) by {
                                assert(slots@[before.len() as int].0 == n_pos);
                            }
                        }
                    } else {
                        proof {
                            let m = choose|m: int| 0 <= m < slots@.len() && #[trigger] slots@[m].0 == n_pos;
                            assert(lists_slot(slots@, n_pos));
                        }
                    }
                }
                dir += 1;
            }
            i += 1;
        }
        proof {
            assert forall|p: (i32, i32)| is_slot(self, p) implies #[trigger] lists_slot(slots@, p) by {
                let (t, d) = choose|t: (i32, i32), d: nat| d < 6 && self.tiles().dom().contains(t) && #[trigger] neighbor_of(t, d) == p;
                lemma_keyed_dom(self.placed_tiles@, tile_key(), t);
                let j = choose|j: int| 0 <= j < self.placed_tiles@.len() && tile_key()(self.placed_tiles@[j]) == t;
                assert(neighbor_of((self.placed_tiles@[j].q, self.placed_tiles@[j].r), d) == p);
            }
        }
        slots
    }
}


/// The key standing for the quest tile at `p` when no group of its terrain touches it.
pub open spec fn synthetic_key(p: (i32, i32)) -> usize {
    (p.0 as i64 * 100000 + p.1 as i64) as usize
}

/// Whether `k` is a key of the watched quest on tile `t`: one of the groups of the
/// quest's terrain that the tile belongs to, or its synthetic key when it belongs to none.
pub open spec fn quest_key_of(b: &Board, t: PlacedTile, k: usize) -> bool {
    is_active_quest(t) && match t.tile {
        GeneratedTile::Quest { quest_data, .. } => {
            let gids = tile_group_ids(b, (t.q, t.r), spec_primary_group_type(quest_data.quest_type@), 6);
            if gids.len() > 0 {
                gids.contains(k)
            } else {
                k == synthetic_key((t.q, t.r))
            }
        },
        _ => false,
    }
}

/// The keys of the watched quests among the first `n` tiles.
pub open spec fn active_group_keys(b: &Board, n: int) -> Set<usize> {
    Set::new(|k: usize| exists|j: int| 0 <= j < n && #[trigger] quest_key_of(b, b.placed_tiles@[j], k))
}

/// Adds `x` to `v` unless it is there.
fn push_unique(v: &mut Vec<usize>, x: usize)
    requires
        old(v)@.no_duplicates(),
    ensures
        final(v)@.no_duplicates(),
        final(v)@.to_set() == old(v)@.to_set().insert(x),
{
    proof {
        assert forall|y: usize| old(v)@.push(x).to_set().contains(y) <==> old(v)@.to_set().insert(x).contains(y) by {
            if old(v)@.push(x).to_set().contains(y) {
                let k = choose|k: int| 0 <= k < old(v)@.push(x).len() && old(v)@.push(x)[k] == y;
                if k < old(v)@.len() {
                    assert(old(v)@[k] == y);
                }
            }
            if old(v)@.to_set().insert(x).contains(y) && y != x {
                let k = choose|k: int| 0 <= k < old(v)@.len() && old(v)@[k] == y;
                assert(old(v)@.push(x)[k] == y);
            }
            if y == x {
                assert(old(v)@.push(x)[old(v)@.len() as int] == x);
            }
        }
    }
    if !vec_contains(v, x) {
        v.push(x);
        assert(v@.to_set() =~= old(v)@.to_set().insert(x));
    } else {
        assert(v@.to_set() =~= old(v)@.to_set().insert(x));
    }
}

impl Board {
    /// The number of distinct terrain groups holding a watched quest; a watched quest
    /// tile that belongs to no group of its terrain counts under a key made from its
    /// position.
    pub fn active_quest_group_count_on_board(&self) -> (r: usize)
        requires
            self.wf(),
        ensures
            r == active_group_keys(self, self.placed_tiles@.len() as int).len(),
    {
        let mut keys: Vec<usize> = Vec::new();
        let mut i: usize = 0;
        assert(keys@.to_set() =~= active_group_keys(self, 0));
        while i < self.placed_tiles.len()
            invariant
                self.wf(),
                i <= self.placed_tiles@.len(),
                keys@.no_duplicates(),
                keys@.to_set() == active_group_keys(self, i as int),
            decreases self.placed_tiles@.len() - i,
        {
            let ghost s0 = keys@.to_set();
            let pt = &self.placed_tiles[i];
            let ghost t = self.placed_tiles@[i as int];
            if !pt.quest_finalized {
                match &pt.tile {
                    GeneratedTile::Quest { quest_data, .. } => {
                        proof {
                            assert(tile_ok(t));
                        }
                        let pos = (pt.q, pt.r);
                        let gt = quest_data.primary_group_type();
                        let gids = self.get_group_ids_for_tile(pos, gt);
                        if gids.len() > 0 {
                            let mut m: usize = 0;
                            assert(gids@.take(0).to_set() =~= Set::<usize>::empty());
                            while m < gids.len()
                                invariant
                                    m <= gids.len(),
                                    keys@.no_duplicates(),
                                    keys@.to_set() == s0.union(gids@.take(m as int).to_set()),
                                decreases gids.len() - m,
                            {
                                push_unique(&mut keys, gids[m]);
                                assert(gids@.take(m + 1).to_set() =~= gids@.take(m as int).to_set().insert(gids@[m as int])) by {
                                    assert forall|y: usize| gids@.take(m + 1).to_set().contains(y) implies gids@.take(
                                        m as int,
                                    ).to_set().insert(gids@[m as int]).contains(y) by {
                                        let k = choose|k: int| 0 <= k < m + 1 && #[trigger] gids@.take(m + 1)[k] == y;
                                        if k < m {
                                            assert(gids@.take(m as int)[k] == y);
                                        }
                                    }
                                    assert forall|y: usize| gids@.take(m as int).to_set().insert(gids@[m as int]).contains(y) implies gids@.take(
                                        m + 1,
                                    ).to_set().contains(y) by {
                                        if y == gids@[m as int] {
                                            assert(gids@.take(m + 1)[m as int] == y);
                                        } else {
                                            let k = choose|k: int| 0 <= k < m && #[trigger] gids@.take(m as int)[k] == y;
                                            assert(gids@.take(m + 1)[k] == y);
                                        }
                                    }
                                }
                                assert(keys@.to_set() =~= s0.union(gids@.take(m + 1).to_set()));
                                m += 1;
                            }
                            assert(gids@.take(gids@.len() as int) =~= gids@);
                        } else {
                            let key = (pos.0 as i64 * 100000 + pos.1 as i64) as usize;
                            push_unique(&mut keys, key);
                        }
                    },
                    _ => {},
                }
            }
            proof {
                assert forall|k: usize| #[trigger] active_group_keys(self, i + 1).contains(k) <==> keys@.to_set().contains(k) by {
                    if active_group_keys(self, i + 1).contains(k) {
                        let j = choose|j: int| 0 <= j < i + 1 && #[trigger] quest_key_of(self, self.placed_tiles@[j], k);
                        if j < i {
                            assert(active_group_keys(self, i as int).contains(k));
                        }
                    }
                    if keys@.to_set().contains(k) && !s0.contains(k) {
                        assert(quest_key_of(self, self.placed_tiles@[i as int], k));
                    }
                    if s0.contains(k) {
                        let j = choose|j: int| 0 <= j < i && #[trigger] quest_key_of(self, self.placed_tiles@[j], k);
                        assert(quest_key_of(self, self.placed_tiles@[j], k));
                    }
                }
                assert(keys@.to_set() =~= active_group_keys(self, i + 1));
            }
            i += 1;
        }
        proof {
            keys@.unique_seq_to_set();
        }
        keys.len()
    }
}

} // verus!
