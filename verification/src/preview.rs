//! What the watched quests would show if a tile were placed at a hovered position:
//! the number still missing and the status each quest would reach.
use vstd::prelude::*;
use crate::game_config::GroupType;
use crate::keyed::{lemma_keyed_dom, lemma_keyed_len, lemma_keyed_value_key};
use crate::tile::{
    GeneratedTile, HexEdgeConfig, EdgeType, QuestTileData, EqualityComparison, spec_hex_edges, rotated, tile_fits, spec_group_of_edge,
    spec_tile_element_count, spec_primary_group_type, spec_remaining_display, quest_name_fits,
};
use crate::board::{
    Board, PlacedTile, ElementGroup, FulfillmentStatus, coord_ok, neighbor_of, spec_opposite, edges_of, tile_ok,
    tile_key, link_ok, group_ok, tile_group_ids, union_members, add_unique, open_edges_sum, spec_external_count,
    quest_count, ref_count, counts_elements, is_active_quest, decide_status, spec_can_place, sum_ids,
    lemma_tile_group_ids, lemma_union_members, lemma_add_unique, lemma_tile_fits_zero, get_neighbor_pos,
    opposite_direction, vec_contains, append_unique,
};

verus! {

/// The groups of terrain `gt` that a tile showing edges `cfg` at `h` would join: for
/// each direction below `n` whose edge is of that terrain and faces an edge of the same
/// terrain of a placed neighbour, the group of that neighbour's edge; each id once, in
/// the order first met.
pub open spec fn hover_group_ids(b: &Board, h: (i32, i32), cfg: Seq<EdgeType>, gt: GroupType, n: nat) -> Seq<usize>
    decreases n,
{
    if n == 0 {
        Seq::<usize>::empty()
    } else {
        let prev = hover_group_ids(b, h, cfg, gt, (n - 1) as nat);
        let d = (n - 1) as nat;
        let np = neighbor_of(h, d);
        let od = spec_opposite(d) as usize;
        if spec_group_of_edge(cfg[d as int]) == Some(gt) && b.tiles().dom().contains(np) && spec_group_of_edge(
            edges_of(b.tiles()[np])[od as int],
        ) == Some(gt) && b.links().dom().contains((np, od)) && !prev.contains(b.links()[(np, od)].1) {
            prev.push(b.links()[(np, od)].1)
        } else {
            prev
        }
    }
}

/// The counts for a quest of terrain `gt` of the joined groups `conn` that are not
/// among the quest's own groups `gids`.
pub open spec fn extra_count(gm: Map<usize, ElementGroup>, conn: Seq<usize>, gids: Seq<usize>, gt: GroupType) -> nat
    decreases conn.len(),
{
    if conn.len() == 0 {
        0
    } else {
        extra_count(gm, conn.drop_last(), gids, gt) + if !gids.contains(conn.last()) && gm.dom().contains(conn.last()) {
            quest_count(gm[conn.last()], gt)
        } else {
            0
        }
    }
}

/// What the hovered tile itself adds to a quest of terrain `gt`: its elements of that
/// terrain, or one segment for tracks.
pub open spec fn delta_hover(tile: GeneratedTile, gt: GroupType) -> nat {
    if counts_elements(gt) {
        spec_tile_element_count(tile, gt)
    } else {
        1
    }
}

/// Whether the hovered tile reaches the quest at `pos`: when the quest tile belongs to
/// no group of its terrain, by an edge of that terrain facing it; otherwise by joining
/// one of its groups.
pub open spec fn hover_connects(
    h: (i32, i32),
    cfg: Seq<EdgeType>,
    pos: (i32, i32),
    gt: GroupType,
    gids: Seq<usize>,
    conn: Seq<usize>,
) -> bool {
    if gids.len() == 0 {
        exists|d: nat| d < 6 && #[trigger] neighbor_of(h, d) == pos && spec_group_of_edge(cfg[d as int]) == Some(gt)
    } else {
        exists|g: usize| #[trigger] conn.contains(g) && gids.contains(g)
    }
}

/// What the quest at `pos` would gather with the hovered tile in place.
pub open spec fn sim_external(
    b: &Board,
    h: (i32, i32),
    cfg: Seq<EdgeType>,
    tile: GeneratedTile,
    pos: (i32, i32),
    gt: GroupType,
) -> nat {
    spec_external_count(b, pos, gt) + delta_hover(tile, gt) + extra_count(
        b.group_map(),
        hover_group_ids(b, h, cfg, gt, 6),
        tile_group_ids(b, pos, gt, 6),
        gt,
    )
}

/// The tiles whose open edges decide the previewed quest: the members of its groups
/// and of the joined groups, and the hovered position.
pub open spec fn preview_members(b: &Board, h: (i32, i32), gids: Seq<usize>, conn: Seq<usize>) -> Seq<(i32, i32)> {
    add_unique(union_members(b.group_map(), gids + conn), seq![h])
}

/// `target` less `got`, and zero when `got` reaches it.
pub open spec fn remaining_of(target: nat, got: nat) -> nat {
    if target > got {
        (target - got) as nat
    } else {
        0
    }
}

/// The preview of the watched quest on tile `t` with the hovered tile `tile` showing
/// edges `cfg` at `h`: the number still missing and the status, when the hovered tile
/// reaches that quest.
pub open spec fn active_preview(
    b: &Board,
    h: (i32, i32),
    cfg: Seq<EdgeType>,
    tile: GeneratedTile,
    t: PlacedTile,
) -> Option<(usize, FulfillmentStatus)> {
    if is_active_quest(t) {
        match t.tile {
            GeneratedTile::Quest { quest_data, .. } => {
                let pos = (t.q, t.r);
                let gt = spec_primary_group_type(quest_data.quest_type@);
                let target = spec_remaining_display(&quest_data);
                let gids = tile_group_ids(b, pos, gt, 6);
                let conn = hover_group_ids(b, h, cfg, gt, 6);
                if hover_connects(h, cfg, pos, gt, gids, conn) {
                    let sim = sim_external(b, h, cfg, tile, pos, gt);
                    let open = open_edges_sum(b, preview_members(b, h, gids, conn), gt, Some((h, cfg)));
                    Some((remaining_of(target, sim) as usize, decide_status(quest_data.equality, sim, target, open)))
                } else {
                    None
                }
            },
            _ => None,
        }
    } else {
        None
    }
}

/// The count the preview of tile `t` adds up (zero when there is none).
pub open spec fn active_sim(b: &Board, h: (i32, i32), cfg: Seq<EdgeType>, tile: GeneratedTile, t: PlacedTile) -> nat {
    if is_active_quest(t) {
        match t.tile {
            GeneratedTile::Quest { quest_data, .. } => {
                let pos = (t.q, t.r);
                let gt = spec_primary_group_type(quest_data.quest_type@);
                if hover_connects(h, cfg, pos, gt, tile_group_ids(b, pos, gt, 6), hover_group_ids(b, h, cfg, gt, 6)) {
                    sim_external(b, h, cfg, tile, pos, gt)
                } else {
                    0
                }
            },
            _ => 0,
        }
    } else {
        0
    }
}

/// The previews of the watched quests among the tiles `ts`, in order, each with its position.
pub open spec fn preview_entries(
    b: &Board,
    h: (i32, i32),
    cfg: Seq<EdgeType>,
    tile: GeneratedTile,
    ts: Seq<PlacedTile>,
) -> Seq<((i32, i32), (usize, FulfillmentStatus))>
    decreases ts.len(),
{
    if ts.len() == 0 {
        Seq::empty()
    } else {
        let prev = preview_entries(b, h, cfg, tile, ts.drop_last());
        match active_preview(b, h, cfg, tile, ts.last()) {
            Some(e) => prev.push(((ts.last().q, ts.last().r), e)),
            None => prev,
        }
    }
}

/// The scan around a hovered quest tile of terrain `gt` at `h` over directions below
/// `n`: the groups met, the tiles whose open edges count, and what the neighbours
/// gather. A neighbour edge of that terrain linked to a group not met yet brings the
/// group's count (elements for forest, village and agriculture, segments otherwise) and
/// members; an unlinked one brings the neighbour tile and its own count.
pub open spec fn hover_scan(b: &Board, h: (i32, i32), cfg: Seq<EdgeType>, gt: GroupType, n: nat) -> (
    Seq<usize>,
    Seq<(i32, i32)>,
    nat,
)
    decreases n,
{
    if n == 0 {
        (Seq::<usize>::empty(), seq![h], 0)
    } else {
        let prev = hover_scan(b, h, cfg, gt, (n - 1) as nat);
        let d = (n - 1) as nat;
        let np = neighbor_of(h, d);
        let od = spec_opposite(d) as usize;
        if spec_group_of_edge(cfg[d as int]) == Some(gt) && b.tiles().dom().contains(np) && spec_group_of_edge(
            edges_of(b.tiles()[np])[od as int],
        ) == Some(gt) {
            if b.links().dom().contains((np, od)) {
                let gid = b.links()[(np, od)].1;
                if prev.0.contains(gid) {
                    prev
                } else if b.group_map().dom().contains(gid) {
                    (
                        prev.0.push(gid),
                        add_unique(prev.1, b.group_map()[gid].member_tiles@),
                        prev.2 + ref_count(b.group_map()[gid], gt),
                    )
                } else {
                    (prev.0.push(gid), prev.1, prev.2)
                }
            } else {
                let own: nat = match gt {
                    GroupType::Forest | GroupType::Village | GroupType::Agriculture => spec_tile_element_count(
                        b.tiles()[np].tile,
                        gt,
                    ),
                    _ => 1,
                };
                (prev.0, add_unique(prev.1, seq![np]), prev.2 + own)
            }
        } else {
            prev
        }
    }
}

/// The preview of a hovered quest tile with data `qd` showing edges `cfg` at `h`.
pub open spec fn hover_quest_entry(b: &Board, h: (i32, i32), cfg: Seq<EdgeType>, qd: QuestTileData) -> (
    usize,
    FulfillmentStatus,
) {
    let gt = spec_primary_group_type(qd.quest_type@);
    let target = spec_remaining_display(&qd);
    let scan = hover_scan(b, h, cfg, gt, 6);
    let open = open_edges_sum(b, scan.1, gt, Some((h, cfg)));
    (remaining_of(target, scan.2) as usize, decide_status(qd.equality, scan.2, target, open))
}

/// The whole preview for `tile` turned by `rot` hovered at `(q, r)`: the previews of the
/// watched quests it reaches, in the order of the tiles, then its own when it is a quest tile.
pub open spec fn spec_preview(b: &Board, q: i32, r: i32, tile: GeneratedTile, rot: nat) -> Seq<
    ((i32, i32), (usize, FulfillmentStatus)),
> {
    let cfg = rotated(spec_hex_edges(tile), rot);
    let act = preview_entries(b, (q, r), cfg, tile, b.placed_tiles@);
    match tile {
        GeneratedTile::Quest { quest_data, .. } => act.push(((q, r), hover_quest_entry(b, (q, r), cfg, quest_data))),
        _ => act,
    }
}

/// The counts a preview adds up fit in a `usize`.
pub open spec fn preview_fits(b: &Board, q: i32, r: i32, tile: GeneratedTile, rot: nat) -> bool {
    let cfg = rotated(spec_hex_edges(tile), rot);
    &&& forall|i: int| 0 <= i < b.placed_tiles@.len() ==> #[trigger] active_sim(b, (q, r), cfg, tile, b.placed_tiles@[i])
        <= usize::MAX
    &&& (tile matches GeneratedTile::Quest { quest_data, .. } ==> hover_scan(
        b,
        (q, r),
        cfg,
        spec_primary_group_type(quest_data.quest_type@),
        6,
    ).2 <= usize::MAX)
    &&& (b.placed_tiles@.len() + 1) * 6 <= usize::MAX
}


/// A list without repetition of placed tiles and the position `h` is at most one
/// longer than the board.
pub proof fn lemma_members_len(b: &Board, s: Seq<(i32, i32)>, h: (i32, i32))
    requires
        b.wf(),
        s.no_duplicates(),
        forall|k: int| 0 <= k < s.len() ==> b.tiles().dom().contains(#[trigger] s[k]) || s[k] == h,
    ensures
        s.len() <= b.placed_tiles@.len() + 1,
{
    lemma_keyed_len(b.placed_tiles@, tile_key());
    s.unique_seq_to_set();
    let big = b.tiles().dom().insert(h);
    assert(s.to_set().subset_of(big)) by {
        assert forall|x: (i32, i32)| s.to_set().contains(x) implies big.contains(x) by {
            let k = choose|k: int| 0 <= k < s.len() && s[k] == x;
        }
    };
    vstd::set_lib::lemma_len_subset(s.to_set(), big);
}

/// The joined groups are distinct existing groups.
pub proof fn lemma_hover_group_ids(b: &Board, h: (i32, i32), cfg: Seq<EdgeType>, gt: GroupType, n: nat)
    requires
        b.wf(),
    ensures
        hover_group_ids(b, h, cfg, gt, n).no_duplicates(),
        forall|k: int| 0 <= k < hover_group_ids(b, h, cfg, gt, n).len() ==> b.group_map().dom().contains(
            #[trigger] hover_group_ids(b, h, cfg, gt, n)[k],
        ),
    decreases n,
{
    if n > 0 {
        lemma_hover_group_ids(b, h, cfg, gt, (n - 1) as nat);
        let d = (n - 1) as nat;
        let np = neighbor_of(h, d);
        let od = spec_opposite(d) as usize;
        if b.links().dom().contains((np, od)) {
            assert(link_ok(b, (np, od)));
        }
    }
}

/// A prefix of the joined groups counts no more than all of them.
pub proof fn lemma_extra_prefix(gm: Map<usize, ElementGroup>, conn: Seq<usize>, gids: Seq<usize>, gt: GroupType, k: int)
    requires
        0 <= k <= conn.len(),
    ensures
        extra_count(gm, conn.take(k), gids, gt) <= extra_count(gm, conn, gids, gt),
    decreases conn.len(),
{
    if k < conn.len() {
        assert(conn.drop_last().take(k) =~= conn.take(k));
        lemma_extra_prefix(gm, conn.drop_last(), gids, gt, k);
    } else {
        assert(conn.take(k) =~= conn);
    }
}

/// The scan around a hovered quest tile lists its tiles once each, all placed but the
/// hovered position, and what it gathers only grows.
pub proof fn lemma_hover_scan(b: &Board, h: (i32, i32), cfg: Seq<EdgeType>, gt: GroupType, n: nat)
    requires
        b.wf(),
    ensures
        hover_scan(b, h, cfg, gt, n).1.no_duplicates(),
        forall|k: int| 0 <= k < hover_scan(b, h, cfg, gt, n).1.len() ==> b.tiles().dom().contains(
            #[trigger] hover_scan(b, h, cfg, gt, n).1[k],
        ) || hover_scan(b, h, cfg, gt, n).1[k] == h,
        forall|m: nat| m <= n ==> #[trigger] hover_scan(b, h, cfg, gt, m).2 <= hover_scan(b, h, cfg, gt, n).2,
    decreases n,
{
    if n == 0 {
        assert(seq![h].no_duplicates());
    } else {
        lemma_hover_scan(b, h, cfg, gt, (n - 1) as nat);
        let prev = hover_scan(b, h, cfg, gt, (n - 1) as nat);
        let cur = hover_scan(b, h, cfg, gt, n);
        let d = (n - 1) as nat;
        let np = neighbor_of(h, d);
        let od = spec_opposite(d) as usize;
        if spec_group_of_edge(cfg[d as int]) == Some(gt) && b.tiles().dom().contains(np) && spec_group_of_edge(
            edges_of(b.tiles()[np])[od as int],
        ) == Some(gt) {
            if b.links().dom().contains((np, od)) {
                let gid = b.links()[(np, od)].1;
                if !prev.0.contains(gid) && b.group_map().dom().contains(gid) {
                    let w = b.group_map()[gid].member_tiles@;
                    assert(group_ok(b, gid));
                    lemma_add_unique(prev.1, w);
                    assert forall|k: int| 0 <= k < cur.1.len() implies b.tiles().dom().contains(#[trigger] cur.1[k])
                        || cur.1[k] == h by {
                        let x = cur.1[k];
                        if prev.1.contains(x) {
                            let j = choose|j: int| 0 <= j < prev.1.len() && prev.1[j] == x;
                        } else {
                            let j = choose|j: int| 0 <= j < w.len() && w[j] == x;
                        }
                    }
                }
            } else {
                lemma_add_unique(prev.1, seq![np]);
                assert forall|k: int| 0 <= k < cur.1.len() implies b.tiles().dom().contains(#[trigger] cur.1[k])
                    || cur.1[k] == h by {
                    let x = cur.1[k];
                    if prev.1.contains(x) {
                        let j = choose|j: int| 0 <= j < prev.1.len() && prev.1[j] == x;
                    } else {
                        assert(seq![np].contains(x));
                        assert(x == np);
                    }
                }
            }
        }
        assert forall|m: nat| m <= n implies #[trigger] hover_scan(b, h, cfg, gt, m).2 <= cur.2 by {
            if m < n {
                assert(hover_scan(b, h, cfg, gt, m).2 <= prev.2);
            }
        }
    }
}

/// The status a quest reaches with `ext` gathered for a bubble of `target` and `open`
/// open edges.
fn decide(eq: EqualityComparison, ext: usize, target: usize, open: usize) -> (st: FulfillmentStatus)
    ensures
        st == decide_status(eq, ext as nat, target as nat, open as nat),
{
    match eq {
        EqualityComparison::MoreThan => {
            if ext >= target {
                FulfillmentStatus::Success
            } else if open == 0 {
                FulfillmentStatus::Failed
            } else {
                FulfillmentStatus::Incomplete
            }
        },
        EqualityComparison::Exactly => {
            if ext == target {
                FulfillmentStatus::Success
            } else if ext > target {
                FulfillmentStatus::Failed
            } else if open == 0 {
                FulfillmentStatus::Failed
            } else {
                FulfillmentStatus::Incomplete
            }
        },
    }
}

impl Board {
    /// The groups of terrain `gt` a tile showing `cfg` at `h` would join.
    fn joined_group_ids(&self, h: (i32, i32), cfg: &HexEdgeConfig, gt: GroupType) -> (c: Vec<usize>)
        requires
            self.wf(),
            coord_ok(h.0),
            coord_ok(h.1),
        ensures
            c@ == hover_group_ids(self, h, cfg.edges@, gt, 6),
    {
        let mut c: Vec<usize> = Vec::new();
        let mut dir: usize = 0;
        while dir < 6
            invariant
                self.wf(),
                coord_ok(h.0),
                coord_ok(h.1),
                dir <= 6,
                c@ == hover_group_ids(self, h, cfg.edges@, gt, dir as nat),
            decreases 6 - dir,
        {
            if cfg.edges[dir].to_group_type() == Some(gt) {
                let np = get_neighbor_pos(h.0, h.1, dir);
                let od = opposite_direction(dir);
                match self.find_tile(np) {
                    Some(ni) => {
                        if self.placed_tiles[ni].edge_config.edges[od].to_group_type() == Some(gt) {
                            match self.find_link(np, od) {
                                Some(g) => {
                                    if !vec_contains(&c, g) {
                                        c.push(g);
                                    }
                                },
                                None => {},
                            }
                        }
                    },
                    None => {},
                }
            }
            dir += 1;
        }
        c
    }

    /// The members of the listed groups, each position once.
    fn members_of(&self, ids: &Vec<usize>) -> (m: Vec<(i32, i32)>)
        requires
            self.wf(),
        ensures
            m@ == union_members(self.group_map(), ids@),
    {
        let mut m: Vec<(i32, i32)> = Vec::new();
        let mut i: usize = 0;
        assert(ids@.take(0) =~= Seq::<usize>::empty());
        while i < ids.len()
            invariant
                self.wf(),
                i <= ids.len(),
                m@ == union_members(self.group_map(), ids@.take(i as int)),
            decreases ids.len() - i,
        {
            assert(ids@.take(i + 1).drop_last() =~= ids@.take(i as int));
            match self.find_group(ids[i]) {
                Some(gi) => {
                    append_unique(&mut m, &self.groups[gi].member_tiles);
                },
                None => {},
            }
            i += 1;
        }
        assert(ids@.take(ids@.len() as int) =~= ids@);
        m
    }

    /// The counts of the joined groups that are not the quest's own.
    fn extra_groups(&self, conn: &Vec<usize>, gids: &Vec<usize>, gt: GroupType) -> (r: usize)
        requires
            self.wf(),
            extra_count(self.group_map(), conn@, gids@, gt) <= usize::MAX,
        ensures
            r == extra_count(self.group_map(), conn@, gids@, gt),
    {
        let mut total: usize = 0;
        let mut i: usize = 0;
        assert(conn@.take(0) =~= Seq::<usize>::empty());
        while i < conn.len()
            invariant
                self.wf(),
                i <= conn.len(),
                total == extra_count(self.group_map(), conn@.take(i as int), gids@, gt),
                extra_count(self.group_map(), conn@, gids@, gt) <= usize::MAX,
            decreases conn.len() - i,
        {
            assert(conn@.take(i + 1).drop_last() =~= conn@.take(i as int));
            proof {
                lemma_extra_prefix(self.group_map(), conn@, gids@, gt, i + 1);
            }
            let g = conn[i];
            if !vec_contains(gids, g) {
                match self.find_group(g) {
                    Some(gi) => {
                        let count = match gt {
                            GroupType::Forest | GroupType::Village | GroupType::Agriculture | GroupType::Water => self.groups[gi].total_element_count,
                            _ => self.groups[gi].total_segment_count,
                        };
                        total = total + count;
                    },
                    None => {},
                }
            }
            i += 1;
        }
        assert(conn@.take(conn@.len() as int) =~= conn@);
        total
    }
}


impl Board {
    /// The preview of the quest on the tile at index `i`, when it is watched and the
    /// hovered tile reaches it.
    fn active_preview_at(&self, i: usize, h: (i32, i32), cfg: &HexEdgeConfig, tile: &GeneratedTile) -> (o: Option<
        (usize, FulfillmentStatus),
    >)
        requires
            self.wf(),
            i < self.placed_tiles@.len(),
            coord_ok(h.0),
            coord_ok(h.1),
            tile_fits(*tile, 0),
            (self.placed_tiles@.len() + 1) * 6 <= usize::MAX,
            active_sim(self, h, cfg.edges@, *tile, self.placed_tiles@[i as int]) <= usize::MAX,
        ensures
            o == active_preview(self, h, cfg.edges@, *tile, self.placed_tiles@[i as int]),
    {
        let pt = &self.placed_tiles[i];
        if pt.quest_finalized {
            return None;
        }
        match &pt.tile {
            GeneratedTile::Quest { quest_data, .. } => {
                proof {
                    assert(tile_ok(self.placed_tiles@[i as int]));
                }
                let pos = (pt.q, pt.r);
                let target_count = quest_data.remaining_display_value();
                let equality = quest_data.equality;
                let group_type = quest_data.primary_group_type();
                let ghost edges = cfg.edges@;
                let gids = self.get_group_ids_for_tile(pos, group_type);
                let connected = self.joined_group_ids(h, cfg, group_type);
                let connects = if gids.len() == 0 {
                    let mut found = false;
                    let mut dir: usize = 0;
                    while dir < 6
                        invariant
                            coord_ok(h.0),
                            coord_ok(h.1),
                            dir <= 6,
                            found <==> exists|d: nat| d < dir && #[trigger] neighbor_of(h, d) == pos && spec_group_of_edge(
                                edges[d as int],
                            ) == Some(group_type),
                            edges == cfg.edges@,
                        decreases 6 - dir,
                    {
                        let n_pos = get_neighbor_pos(h.0, h.1, dir);
                        assert(n_pos == neighbor_of(h, dir as nat));
                        if n_pos.0 == pos.0 && n_pos.1 == pos.1 && cfg.edges[dir].to_group_type() == Some(group_type) {
                            found = true;
                        }
                        proof {
                            assert forall|d: nat| d < dir + 1 && #[trigger] neighbor_of(h, d) == pos && spec_group_of_edge(
                                edges[d as int],
                            ) == Some(group_type) implies found by {
                                if d == dir {
                                    assert(n_pos == pos);
                                }
                            }
                        }
                        dir += 1;
                    }
                    found
                } else {
                    let mut found = false;
                    let mut k: usize = 0;
                    while k < connected.len()
                        invariant
                            k <= connected@.len(),
                            found <==> exists|j: int| 0 <= j < k && gids@.contains(#[trigger] connected@[j]),
                        decreases connected@.len() - k,
                    {
                        if vec_contains(&gids, connected[k]) {
                            found = true;
                        }
                        k += 1;
                    }
                    proof {
                        if found {
                            let j = choose|j: int| 0 <= j < connected@.len() && gids@.contains(#[trigger] connected@[j]);
                            assert(connected@.contains(connected@[j]));
                        } else {
                            assert forall|g: usize| #[trigger] connected@.contains(g) implies !gids@.contains(g) by {
                                let j = choose|j: int| 0 <= j < connected@.len() && connected@[j] == g;
                            }
                        }
                    }
                    found
                };
                if !connects {
                    return None;
                }
                let ghost sim = sim_external(self, h, edges, *tile, pos, group_type);
                let current_external = self.get_quest_external_count(pos, group_type);
                let delta_hover: usize = match group_type {
                    GroupType::Forest | GroupType::Village | GroupType::Agriculture | GroupType::Water => self.get_tile_element_count(tile, group_type),
                    _ => 1,
                };
                let delta_extra_groups = self.extra_groups(&connected, &gids, group_type);
                let simulated_external = current_external + delta_hover + delta_extra_groups;
                let mut ids: Vec<usize> = Vec::new();
                let mut k: usize = 0;
                while k < gids.len()
                    invariant
                        k <= gids@.len(),
                        ids@ == gids@.take(k as int),
                    decreases gids@.len() - k,
                {
                    ids.push(gids[k]);
                    assert(gids@.take(k + 1) =~= gids@.take(k as int).push(gids@[k as int]));
                    k += 1;
                }
                let mut k: usize = 0;
                while k < connected.len()
                    invariant
                        k <= connected@.len(),
                        gids@.take(gids@.len() as int) == gids@,
                        ids@ == gids@ + connected@.take(k as int),
                    decreases connected@.len() - k,
                {
                    ids.push(connected[k]);
                    assert(gids@ + connected@.take(k + 1) =~= (gids@ + connected@.take(k as int)).push(connected@[k as int]));
                    k += 1;
                }
                assert(gids@.take(gids@.len() as int) =~= gids@);
                assert(connected@.take(connected@.len() as int) =~= connected@);
                let mut member_tiles = self.members_of(&ids);
                let mut hover_only: Vec<(i32, i32)> = Vec::new();
                hover_only.push(h);
                assert(hover_only@ =~= seq![h]);
                proof {
                    lemma_union_members(self, ids@);
                    lemma_add_unique(member_tiles@, seq![h]);
                }
                append_unique(&mut member_tiles, &hover_only);
                proof {
                    let u = union_members(self.group_map(), ids@);
                    assert forall|k: int| 0 <= k < member_tiles@.len() implies self.tiles().dom().contains(
                        #[trigger] member_tiles@[k],
                    ) || member_tiles@[k] == h by {
                        let x = member_tiles@[k];
                        if u.contains(x) {
                            let j = choose|j: int| 0 <= j < u.len() && u[j] == x;
                        } else {
                            assert(seq![h].contains(x));
                        }
                    }
                    lemma_members_len(self, member_tiles@, h);
                }
                assert(member_tiles@.len() * 6 <= usize::MAX) by (nonlinear_arith)
                    requires
                        member_tiles@.len() <= self.placed_tiles@.len() + 1,
                        (self.placed_tiles@.len() + 1) * 6 <= usize::MAX,
                ;
                let simulated_open_edges = self.count_open_edges_for_tiles(&member_tiles, group_type, Some((h, cfg)));
                let remaining_target = if target_count > simulated_external {
                    target_count - simulated_external
                } else {
                    0
                };
                let st = decide(equality, simulated_external, target_count, simulated_open_edges);
                Some((remaining_target, st))
            },
            _ => None,
        }
    }
}


impl Board {
    /// The preview of a hovered quest tile with data `qd` showing `cfg` at `h`.
    fn hover_quest_preview(&self, h: (i32, i32), cfg: &HexEdgeConfig, qd: &QuestTileData) -> (e: (usize, FulfillmentStatus))
        requires
            self.wf(),
            coord_ok(h.0),
            coord_ok(h.1),
            quest_name_fits(qd.quest_type@),
            hover_scan(self, h, cfg.edges@, spec_primary_group_type(qd.quest_type@), 6).2 <= usize::MAX,
            (self.placed_tiles@.len() + 1) * 6 <= usize::MAX,
        ensures
            e == hover_quest_entry(self, h, cfg.edges@, *qd),
    {
        let target_count = qd.remaining_display_value();
        let equality = qd.equality;
        let group_type = qd.primary_group_type();
        let ghost edges = cfg.edges@;
        proof {
            lemma_hover_scan(self, h, edges, group_type, 6);
        }
        let mut connected: Vec<usize> = Vec::new();
        let mut member_tiles: Vec<(i32, i32)> = Vec::new();
        member_tiles.push(h);
        let mut simulated_external: usize = 0;
        assert(member_tiles@ =~= seq![h]);
        let mut dir: usize = 0;
        while dir < 6
            invariant
                self.wf(),
                coord_ok(h.0),
                coord_ok(h.1),
                dir <= 6,
                edges == cfg.edges@,
                (connected@, member_tiles@, simulated_external as nat) == hover_scan(self, h, edges, group_type, dir as nat),
                forall|m: nat| m <= 6 ==> #[trigger] hover_scan(self, h, edges, group_type, m).2 <= hover_scan(
                    self,
                    h,
                    edges,
                    group_type,
                    6,
                ).2,
                hover_scan(self, h, edges, group_type, 6).2 <= usize::MAX,
            decreases 6 - dir,
        {
            let ghost next = hover_scan(self, h, edges, group_type, (dir + 1) as nat);
            assert(next.2 <= usize::MAX);
            let np = get_neighbor_pos(h.0, h.1, dir);
            let od = opposite_direction(dir);
            if cfg.edges[dir].to_group_type() == Some(group_type) {
                match self.find_tile(np) {
                    Some(ni) => {
                        if self.placed_tiles[ni].edge_config.edges[od].to_group_type() == Some(group_type) {
                            match self.find_link(np, od) {
                                Some(gid) => {
                                    if !vec_contains(&connected, gid) {
                                        connected.push(gid);
                                        match self.find_group(gid) {
                                            Some(gi) => {
                                                append_unique(&mut member_tiles, &self.groups[gi].member_tiles);
                                                let count = match group_type {
                                                    GroupType::Forest | GroupType::Village | GroupType::Agriculture => self.groups[gi].total_element_count,
                                                    _ => self.groups[gi].total_segment_count,
                                                };
                                                simulated_external = simulated_external + count;
                                            },
                                            None => {},
                                        }
                                    }
                                },
                                None => {
                                    let mut one: Vec<(i32, i32)> = Vec::new();
                                    one.push(np);
                                    assert(one@ =~= seq![np]);
                                    append_unique(&mut member_tiles, &one);
                                    let count: usize = match group_type {
                                        GroupType::Forest | GroupType::Village | GroupType::Agriculture => {
                                            proof {
                                                assert(tile_ok(self.placed_tiles@[ni as int]));
                                                lemma_tile_fits_zero(self.placed_tiles@[ni as int]);
                                            }
                                            self.get_tile_element_count(&self.placed_tiles[ni].tile, group_type)
                                        },
                                        _ => 1,
                                    };
                                    simulated_external = simulated_external + count;
                                },
                            }
                        }
                    },
                    None => {},
                }
            }
            dir += 1;
        }
        proof {
            lemma_members_len(self, member_tiles@, h);
        }
        assert(member_tiles@.len() * 6 <= usize::MAX) by (nonlinear_arith)
            requires
                member_tiles@.len() <= self.placed_tiles@.len() + 1,
                (self.placed_tiles@.len() + 1) * 6 <= usize::MAX,
        ;
        let simulated_open_edges = self.count_open_edges_for_tiles(&member_tiles, group_type, Some((h, cfg)));
        let remaining_target = if target_count > simulated_external {
            target_count - simulated_external
        } else {
            0
        };
        let st = decide(equality, simulated_external, target_count, simulated_open_edges);
        (remaining_target, st)
    }

    /// What the watched quests would show with `hover_tile` turned by `hover_rotation`
    /// at `(hover_q, hover_r)`: for each watched quest the hovered tile reaches, the
    /// number still missing and the status it would reach, in the order of the tiles,
    /// then the same for the hovered tile itself when it is a quest tile. Nothing when
    /// the tile may not be placed there.
    pub fn preview_quest_counts(&self, hover_q: i32, hover_r: i32, hover_tile: &GeneratedTile, hover_rotation: usize) -> (res: Vec<
        ((i32, i32), (usize, FulfillmentStatus)),
    >)
        requires
            self.wf(),
            coord_ok(hover_q),
            coord_ok(hover_r),
            tile_fits(*hover_tile, 0),
            preview_fits(self, hover_q, hover_r, *hover_tile, hover_rotation as nat),
        ensures
            !spec_can_place(self, hover_q, hover_r, *hover_tile, hover_rotation as nat) ==> res@.len() == 0,
            spec_can_place(self, hover_q, hover_r, *hover_tile, hover_rotation as nat) ==> res@ == spec_preview(
                self,
                hover_q,
                hover_r,
                *hover_tile,
                hover_rotation as nat,
            ),
    {
        let mut preview_results: Vec<((i32, i32), (usize, FulfillmentStatus))> = Vec::new();
        if !self.can_place_tile(hover_q, hover_r, hover_tile, hover_rotation) {
            return preview_results;
        }
        let mut preview_cfg = hover_tile.to_hex_edge_config();
        preview_cfg.rotate(hover_rotation);
        let hover_pos = (hover_q, hover_r);
        let ghost cfg = preview_cfg.edges@;
        let mut i: usize = 0;
        assert(self.placed_tiles@.take(0) =~= Seq::<PlacedTile>::empty());
        while i < self.placed_tiles.len()
            invariant
                self.wf(),
                coord_ok(hover_q),
                coord_ok(hover_r),
                hover_pos == (hover_q, hover_r),
                tile_fits(*hover_tile, 0),
                preview_fits(self, hover_q, hover_r, *hover_tile, hover_rotation as nat),
                cfg == preview_cfg.edges@,
                cfg == rotated(spec_hex_edges(*hover_tile), hover_rotation as nat),
                i <= self.placed_tiles@.len(),
                preview_results@ == preview_entries(self, hover_pos, cfg, *hover_tile, self.placed_tiles@.take(i as int)),
            decreases self.placed_tiles@.len() - i,
        {
            assert(self.placed_tiles@.take(i + 1).drop_last() =~= self.placed_tiles@.take(i as int));
            assert(self.placed_tiles@.take(i + 1).last() == self.placed_tiles@[i as int]);
            assert(active_sim(self, hover_pos, cfg, *hover_tile, self.placed_tiles@[i as int]) <= usize::MAX);
            match self.active_preview_at(i, hover_pos, &preview_cfg, hover_tile) {
                Some(e) => {
                    preview_results.push(((self.placed_tiles[i].q, self.placed_tiles[i].r), e));
                },
                None => {},
            }
            i += 1;
        }
        assert(self.placed_tiles@.take(self.placed_tiles@.len() as int) =~= self.placed_tiles@);
        match hover_tile {
            GeneratedTile::Quest { quest_data, .. } => {
                let e = self.hover_quest_preview(hover_pos, &preview_cfg, quest_data);
                preview_results.push((hover_pos, e));
            },
            _ => {},
        }
        preview_results
    }
}

} // verus!
