//! Properties that hold across the library's operations: the geometry of the hex grid,
//! the symmetry of the edge rules, turning tiles, segment codes, and what placing and
//! evaluating keep.
use vstd::prelude::*;
use crate::tile::{
    EdgeType, spec_compatible, rotated, EqualityComparison, SegmentData, quest_seg_edge, normal_seg_edge,
    spec_edge_of_group, spec_remaining_display, paint, lemma_paint_len, normal_edges, Placement, placements_edges,
};
use crate::tile::{
    GeneratedTile, spec_parse_segment_code, spec_shape_code, spec_letter, spec_hex_edges, spec_primary_group_type,
    spec_segments, dirs_of_group, spec_group_of_edge, quest_fold, spec_config_tokens, spec_base_edges,
    spec_parse_segment_from, shape_of,
};
use crate::keyed::{distinct_keys, lemma_keyed_dom, lemma_keyed_map_values};
use crate::preview::{preview_entries, spec_preview};
use crate::game_config::{GroupType, SegmentType, spec_segment_element_count, shapes_of};
use crate::text::{remove_pat, starts_with, seq_contains_sub, spec_to_lowercase, split_on, lemma_split_on_nonempty};
use crate::board::{
    Board, FulfillmentStatus, coord_ok, spec_neighbor, spec_opposite, spec_can_place, valid_rotations, next_rotation,
    lemma_valid_rotations, evaluated_on, placed_on, quest_outcome, tile_ok, PlacedTile, tile_key, tile_group_ids,
    tile_open_edges, open_edges_sum, quest_members, spec_external_count, evaluated_tile, count_resolved, count_succeeded,
    decide_status, spec_remaining_target,
};
use crate::score_manager::{
    spec_matching, spec_breakdown, fresh_manager, scoring_fits, is_perfect, match_counts, lemma_match_scan_bound,
    lemma_perfect_neighbors_bound,
};
use crate::quest_manager::{ActiveQuest, other_than, next_count};
use crate::board::{is_active_quest, resolved_ids, without_ids, lemma_counts_bounded};

verus! {

/// Opposite directions pair up: the opposite of the opposite is the direction itself
/// (taken modulo six), and no direction is its own opposite.
pub proof fn lemma_opposite_involution(d: nat)
    ensures
        spec_opposite(spec_opposite(d)) == d % 6,
        spec_opposite(d) != d % 6,
        spec_opposite(d) < 6,
{
}

/// Stepping to a neighbour and back across the opposite direction returns to the start.
pub proof fn lemma_neighbor_round_trip(q: i32, r: i32, d: nat)
    requires
        coord_ok(q),
        coord_ok(r),
    ensures
        ({
            let n = spec_neighbor(q, r, d);
            spec_neighbor(n.0, n.1, spec_opposite(d)) == (q, r)
        }),
{
    let e = d % 6;
    assert(spec_opposite(d) % 6 == spec_opposite(d));
    if q % 2 == 0 {
        assert((q + 1) % 2 == 1 && (q - 1) % 2 == 1);
    } else {
        assert((q + 1) % 2 == 0 && (q - 1) % 2 == 0);
    }
}

/// The six neighbours of a position are six different positions, none of them the
/// position itself.
pub proof fn lemma_neighbors_distinct(q: i32, r: i32, d1: nat, d2: nat)
    requires
        coord_ok(q),
        coord_ok(r),
        d1 < 6,
        d2 < 6,
    ensures
        spec_neighbor(q, r, d1) != (q, r),
        d1 != d2 ==> spec_neighbor(q, r, d1) != spec_neighbor(q, r, d2),
{
}

/// The placement rule is symmetric: an edge may lie against another exactly when the
/// other may lie against it.
pub proof fn lemma_compatible_symmetric(a: EdgeType, b: EdgeType)
    ensures
        spec_compatible(a, b) == spec_compatible(b, a),
{
}

/// The scoring rule is symmetric: two edges fit in either order.
pub proof fn lemma_matching_symmetric(a: EdgeType, b: EdgeType)
    ensures
        spec_matching(a, b) == spec_matching(b, a),
{
}

/// Every edge fits an edge of its own kind for scoring.
pub proof fn lemma_equal_edges_match(a: EdgeType)
    ensures
        spec_matching(a, a),
{
}

/// Turning by `a` and then by `b` is turning by `a + b`.
pub proof fn lemma_rotated_compose(e: Seq<EdgeType>, a: nat, b: nat)
    requires
        e.len() == 6,
    ensures
        rotated(rotated(e, a), b) == rotated(e, a + b),
{
    assert forall|j: int| 0 <= j < 6 implies #[trigger] rotated(rotated(e, a), b)[j] == rotated(e, a + b)[j] by {
        let k = (j + 6 - (b % 6)) % 6;
        assert(0 <= k < 6);
        assert((k + 6 - (a % 6)) % 6 == (j + 6 - ((a + b) % 6)) % 6) by (nonlinear_arith)
            requires
                k == (j + 6 - (b % 6)) % 6,
                0 <= j < 6,
        ;
    }
    assert(rotated(rotated(e, a), b) =~= rotated(e, a + b));
}

/// A full turn leaves a tile's edges as they are.
pub proof fn lemma_rotated_full_turn(e: Seq<EdgeType>)
    requires
        e.len() == 6,
    ensures
        rotated(e, 6) == e,
        rotated(e, 0) == e,
{
    assert(rotated(e, 6) =~= e);
    assert(rotated(e, 0) =~= e);
}


/// Turning a tile to the next valid turn always lands on a turn at which it may be placed,
/// whenever there is one.
pub proof fn lemma_next_rotation_valid(b: &Board, q: i32, r: i32, tile: GeneratedTile, current: usize, forward: bool)
    requires
        valid_rotations(b, q, r, tile, 6).len() > 0,
    ensures
        spec_can_place(b, q, r, tile, next_rotation(valid_rotations(b, q, r, tile, 6), current, forward) as nat),
        next_rotation(valid_rotations(b, q, r, tile, 6), current, forward) < 6,
{
    let v = valid_rotations(b, q, r, tile, 6);
    lemma_valid_rotations(b, q, r, tile, 6);
    let res = next_rotation(v, current, forward);
    let len = v.len() as int;
    if v.contains(current) {
        let idx = v.index_of(current);
        assert(0 <= idx < len);
        if forward {
            assert(0 <= (idx + 1) % len < len);
            assert(v[(idx + 1) % len] == res);
        } else {
            assert(0 <= (idx + len - 1) % len < len);
            assert(v[(idx + len - 1) % len] == res);
        }
    } else {
        assert(v[0] == res);
    }
}

/// Evaluating the quests never touches a tile whose quest was already decided, and
/// makes final every quest it decides.
pub proof fn lemma_decided_quests_stay(b0: &Board, b1: &Board)
    requires
        evaluated_on(b0, b1),
    ensures
        b1.placed_tiles@.len() == b0.placed_tiles@.len(),
        forall|i: int| 0 <= i < b0.placed_tiles@.len() && #[trigger] b0.placed_tiles@[i].quest_finalized ==> b1.placed_tiles@[i]
            == b0.placed_tiles@[i],
        forall|i: int| 0 <= i < b0.placed_tiles@.len() ==> match quest_outcome(b0, #[trigger] b0.placed_tiles@[i]) {
            Some(st) => st != FulfillmentStatus::Incomplete ==> b1.placed_tiles@[i].quest_finalized
                && b1.placed_tiles@[i].quest_status == Some(st),
            None => true,
        },
        forall|i: int| 0 <= i < b0.placed_tiles@.len() ==> (#[trigger] b1.placed_tiles@[i]).quest_finalized
            ==> b1.placed_tiles@[i].quest_status != Some(FulfillmentStatus::Incomplete),
{
    assert forall|i: int| 0 <= i < b0.placed_tiles@.len() implies (#[trigger] b1.placed_tiles@[i]).quest_finalized
        ==> b1.placed_tiles@[i].quest_status != Some(FulfillmentStatus::Incomplete) by {
        assert(tile_ok(b1.placed_tiles@[i]));
    }
}

/// Placing a tile keeps every tile already on the board as it was, its quest status
/// included.
pub proof fn lemma_placement_keeps_tiles(b0: &Board, b1: &Board, q: i32, r: i32, tile: GeneratedTile, rot: usize)
    requires
        placed_on(b0, b1, q, r, tile, rot),
    ensures
        forall|p: (i32, i32)| #[trigger] b0.tiles().dom().contains(p) ==> b1.tiles().dom().contains(p) && b1.tiles()[p]
            == b0.tiles()[p],
{
}


/// Dropping an id that no open quest carries leaves the open quests as they are.
pub proof fn lemma_remove_absent(qs: Seq<ActiveQuest>, id: usize)
    requires
        forall|i: int| 0 <= i < qs.len() ==> #[trigger] qs[i].quest_id != id,
    ensures
        qs.filter(other_than(id)) == qs,
    decreases qs.len(),
{
    reveal(Seq::filter);
    if qs.len() > 0 {
        lemma_remove_absent(qs.drop_last(), id);
        assert(qs[qs.len() - 1].quest_id != id);
        assert(qs.drop_last().push(qs.last()) =~= qs);
    }
}

/// Removing a quest right after adding it gives back the open quests as they were,
/// when its id was new.
pub proof fn lemma_add_then_remove(qs: Seq<ActiveQuest>, x: ActiveQuest)
    requires
        forall|i: int| 0 <= i < qs.len() ==> #[trigger] qs[i].quest_id != x.quest_id,
    ensures
        qs.push(x).filter(other_than(x.quest_id)) == qs,
{
    qs.lemma_filter_push(x, other_than(x.quest_id));
    lemma_remove_absent(qs, x.quest_id);
}

/// Removing a quest twice is removing it once.
pub proof fn lemma_remove_twice(qs: Seq<ActiveQuest>, id: usize)
    ensures
        qs.filter(other_than(id)).filter(other_than(id)) == qs.filter(other_than(id)),
{
    let f = qs.filter(other_than(id));
    assert forall|i: int| 0 <= i < f.len() implies #[trigger] f[i].quest_id != id by {
        qs.lemma_filter_pred(other_than(id), i);
    }
    lemma_remove_absent(f, id);
}


/// Removing a pattern that starts nowhere in `s` leaves `s` as it is.
pub proof fn lemma_remove_pat_absent(s: Seq<char>, pat: Seq<char>)
    requires
        pat.len() > 0,
        forall|i: int| 0 <= i < s.len() ==> !starts_with(#[trigger] s.skip(i), pat),
    ensures
        remove_pat(s, pat) == s,
    decreases s.len(),
{
    if s.len() > 0 {
        assert(s.skip(0) =~= s);
        assert forall|i: int| 0 <= i < s.drop_first().len() implies !starts_with(#[trigger] s.drop_first().skip(i), pat) by {
            assert(s.drop_first().skip(i) =~= s.skip(i + 1));
        }
        lemma_remove_pat_absent(s.drop_first(), pat);
        assert(seq![s[0]] + s.drop_first() =~= s);
    }
}

/// A segment's code reads back as the same shape and terrain, whatever lowercase it is
/// given; when that lowercase does not mention "hybrid", the hybrid flag reads back too:
/// set exactly for a full-tile water segment.
pub proof fn lemma_segment_code_reads_back_from(st: SegmentType, gt: GroupType, lower: Seq<char>)
    ensures
        spec_parse_segment_from(spec_shape_code(st).push(spec_letter(gt)), lower) matches Some(t) && t.0 == st && t.1 == gt,
        !seq_contains_sub(lower, "hybrid"@) ==> spec_parse_segment_from(spec_shape_code(st).push(spec_letter(gt)), lower)
            == Some((st, gt, gt == GroupType::Water && st == SegmentType::ST6A)),
{
    let code = spec_shape_code(st).push(spec_letter(gt));
    reveal_strlit("Hybrid");
    reveal_strlit("hybrid");
    assert(code.len() == 3);
    assert forall|i: int| 0 <= i < code.len() implies !starts_with(#[trigger] code.skip(i), "Hybrid"@) by {}
    lemma_remove_pat_absent(code, "Hybrid"@);
    assert forall|i: int| 0 <= i < code.len() implies !starts_with(#[trigger] code.skip(i), "hybrid"@) by {}
    lemma_remove_pat_absent(code, "hybrid"@);
    assert forall|i: int| 0 <= i < code.len() implies !starts_with(#[trigger] code.skip(i), seq!['_']) by {
        if starts_with(code.skip(i), seq!['_']) {
            assert(code.skip(i).take(1)[0] == code[i]);
        }
    }
    lemma_remove_pat_absent(code, seq!['_']);
    let body = code.drop_last();
    assert(body =~= spec_shape_code(st));
}

/// A segment's code reads back as the same shape and terrain, and with the hybrid flag
/// set exactly for a full-tile water segment whenever its lowercase does not mention
/// "hybrid".
pub proof fn lemma_segment_code_reads_back(st: SegmentType, gt: GroupType)
    ensures
        spec_parse_segment_code(spec_shape_code(st).push(spec_letter(gt))) matches Some(t) && t.0 == st && t.1 == gt,
        !seq_contains_sub(spec_to_lowercase(spec_shape_code(st).push(spec_letter(gt))), "hybrid"@) ==> spec_parse_segment_code(
            spec_shape_code(st).push(spec_letter(gt)),
        ) == Some((st, gt, gt == GroupType::Water && st == SegmentType::ST6A)),
{
    lemma_segment_code_reads_back_from(st, gt, spec_to_lowercase(spec_shape_code(st).push(spec_letter(gt))));
}

/// The previews among tiles `ts` are for positions of those tiles, each once when the
/// tiles have distinct positions.
pub proof fn lemma_preview_entries_positions(
    b: &Board,
    h: (i32, i32),
    cfg: Seq<EdgeType>,
    tile: GeneratedTile,
    ts: Seq<PlacedTile>,
)
    requires
        distinct_keys(ts, tile_key()),
    ensures
        forall|k: int| 0 <= k < preview_entries(b, h, cfg, tile, ts).len() ==> exists|j: int| 0 <= j < ts.len()
            && #[trigger] preview_entries(b, h, cfg, tile, ts)[k].0 == tile_key()(ts[j]),
        forall|a: int, c: int| 0 <= a < c < preview_entries(b, h, cfg, tile, ts).len() ==> #[trigger] preview_entries(
            b,
            h,
            cfg,
            tile,
            ts,
        )[a].0 != #[trigger] preview_entries(b, h, cfg, tile, ts)[c].0,
    decreases ts.len(),
{
    if ts.len() > 0 {
        let rest = ts.drop_last();
        assert(distinct_keys(rest, tile_key())) by {
            assert forall|a: int, c: int| 0 <= a < c < rest.len() implies tile_key()(rest[a]) != tile_key()(rest[c]) by {
                assert(rest[a] == ts[a] && rest[c] == ts[c]);
            }
        }
        lemma_preview_entries_positions(b, h, cfg, tile, rest);
        let prev = preview_entries(b, h, cfg, tile, rest);
        let cur = preview_entries(b, h, cfg, tile, ts);
        let last_key = (ts.last().q, ts.last().r);
        assert forall|k: int| 0 <= k < prev.len() implies #[trigger] prev[k].0 != last_key by {
            let j = choose|j: int| 0 <= j < rest.len() && #[trigger] prev[k].0 == tile_key()(rest[j]);
            assert(rest[j] == ts[j]);
            assert(tile_key()(ts[j]) != tile_key()(ts[ts.len() - 1]));
        }
        assert forall|k: int| 0 <= k < cur.len() implies exists|j: int| 0 <= j < ts.len() && #[trigger] cur[k].0 == tile_key()(
            ts[j],
        ) by {
            if k < prev.len() {
                assert(cur[k] == prev[k]);
                let j = choose|j: int| 0 <= j < rest.len() && #[trigger] prev[k].0 == tile_key()(rest[j]);
                assert(rest[j] == ts[j]);
            } else {
                assert(cur[k].0 == tile_key()(ts[ts.len() - 1]));
            }
        }
        assert forall|a: int, c: int| 0 <= a < c < cur.len() implies #[trigger] cur[a].0 != #[trigger] cur[c].0 by {
            if c < prev.len() {
                assert(cur[a] == prev[a] && cur[c] == prev[c]);
            } else {
                assert(cur[a] == prev[a]);
                assert(cur[c].0 == last_key);
            }
        }
    }
}

/// A preview names each position once: the watched quests it reaches are on distinct
/// placed tiles, and the hovered position, which is free, comes last if at all.
pub proof fn lemma_preview_positions_distinct(b: &Board, q: i32, r: i32, tile: GeneratedTile, rot: nat)
    requires
        b.wf(),
        spec_can_place(b, q, r, tile, rot),
    ensures
        forall|a: int, c: int| 0 <= a < c < spec_preview(b, q, r, tile, rot).len() ==> #[trigger] spec_preview(
            b,
            q,
            r,
            tile,
            rot,
        )[a].0 != #[trigger] spec_preview(b, q, r, tile, rot)[c].0,
{
    let cfg = rotated(spec_hex_edges(tile), rot);
    let act = preview_entries(b, (q, r), cfg, tile, b.placed_tiles@);
    lemma_preview_entries_positions(b, (q, r), cfg, tile, b.placed_tiles@);
    let all = spec_preview(b, q, r, tile, rot);
    assert forall|a: int, c: int| 0 <= a < c < all.len() implies #[trigger] all[a].0 != #[trigger] all[c].0 by {
        if c < act.len() {
            assert(all[a] == act[a] && all[c] == act[c]);
        } else {
            assert(all[a] == act[a]);
            let j = choose|j: int| 0 <= j < b.placed_tiles@.len() && #[trigger] act[a].0 == tile_key()(b.placed_tiles@[j]);
            lemma_keyed_dom(b.placed_tiles@, tile_key(), act[a].0);
            assert(all[c].0 == (q, r));
        }
    }
}


/// Two boards with the same tiles in the same places (whatever their quest statuses),
/// the same groups and the same edge links.
pub open spec fn same_layout(b0: &Board, b1: &Board) -> bool {
    &&& b0.tiles().dom() == b1.tiles().dom()
    &&& forall|p: (i32, i32)| #[trigger] b0.tiles().dom().contains(p) ==> b1.tiles()[p].tile == b0.tiles()[p].tile
        && b1.tiles()[p].edge_config == b0.tiles()[p].edge_config
    &&& b0.groups == b1.groups
    &&& b0.edge_to_group == b1.edge_to_group
}

/// Boards of the same layout see the same groups around a tile.
pub proof fn lemma_layout_group_ids(b0: &Board, b1: &Board, pos: (i32, i32), gt: GroupType, n: nat)
    requires
        same_layout(b0, b1),
    ensures
        tile_group_ids(b0, pos, gt, n) == tile_group_ids(b1, pos, gt, n),
    decreases n,
{
    if n > 0 {
        lemma_layout_group_ids(b0, b1, pos, gt, (n - 1) as nat);
    }
}

/// Boards of the same layout show the same open edges around a position.
pub proof fn lemma_layout_tile_open_edges(b0: &Board, b1: &Board, m: (i32, i32), gt: GroupType, n: nat)
    requires
        same_layout(b0, b1),
    ensures
        tile_open_edges(b0, m, gt, None, n) == tile_open_edges(b1, m, gt, None, n),
    decreases n,
{
    if n > 0 {
        lemma_layout_tile_open_edges(b0, b1, m, gt, (n - 1) as nat);
    }
}

/// Boards of the same layout show the same open edges around the listed tiles.
pub proof fn lemma_layout_open_edges(b0: &Board, b1: &Board, members: Seq<(i32, i32)>, gt: GroupType)
    requires
        same_layout(b0, b1),
    ensures
        open_edges_sum(b0, members, gt, None) == open_edges_sum(b1, members, gt, None),
    decreases members.len(),
{
    if members.len() > 0 {
        lemma_layout_open_edges(b0, b1, members.drop_last(), gt);
        lemma_layout_tile_open_edges(b0, b1, members.last(), gt, 6);
    }
}

/// On boards of the same layout a quest tile reaches the same status.
pub proof fn lemma_layout_outcome(b0: &Board, b1: &Board, t: PlacedTile)
    requires
        same_layout(b0, b1),
    ensures
        quest_outcome(b0, t) == quest_outcome(b1, t),
{
    match t.tile {
        GeneratedTile::Quest { quest_data, .. } => {
            let pos = (t.q, t.r);
            let gt = spec_primary_group_type(quest_data.quest_type@);
            lemma_layout_group_ids(b0, b1, pos, gt, 6);
            assert(b0.group_map() == b1.group_map());
            lemma_layout_open_edges(b0, b1, quest_members(b0, pos, gt), gt);
            assert(spec_external_count(b0, pos, gt) == spec_external_count(b1, pos, gt));
        },
        _ => {},
    }
}

/// No tile decides anything on board `b` when every quest outcome is undecided or absent.
pub proof fn lemma_nothing_decided(b: &Board, ts: Seq<PlacedTile>)
    requires
        forall|i: int| 0 <= i < ts.len() ==> match quest_outcome(b, #[trigger] ts[i]) {
            Some(st) => st == FulfillmentStatus::Incomplete,
            None => true,
        },
    ensures
        count_resolved(b, ts) == 0,
        count_succeeded(b, ts) == 0,
    decreases ts.len(),
{
    if ts.len() > 0 {
        assert forall|i: int| 0 <= i < ts.drop_last().len() implies match quest_outcome(b, #[trigger] ts.drop_last()[i]) {
            Some(st) => st == FulfillmentStatus::Incomplete,
            None => true,
        } by {
            assert(ts.drop_last()[i] == ts[i]);
        }
        lemma_nothing_decided(b, ts.drop_last());
        assert(ts.last() == ts[ts.len() - 1]);
    }
}

/// Evaluating the quests a second time, with nothing placed in between, decides nothing:
/// every quest was either decided and made final, or is still open with the same count.
pub proof fn lemma_evaluation_settles(b0: &Board, b1: &Board)
    requires
        b0.wf(),
        evaluated_on(b0, b1),
    ensures
        count_resolved(b1, b1.placed_tiles@) == 0,
        count_succeeded(b1, b1.placed_tiles@) == 0,
{
    let f = |t: PlacedTile| evaluated_tile(t, quest_outcome(b0, t));
    assert forall|x: PlacedTile| #[trigger] tile_key()(f(x)) == tile_key()(x) by {}
    lemma_keyed_map_values(b0.placed_tiles@, tile_key(), f);
    assert(b1.tiles() == b0.tiles().map_values(f));
    assert(same_layout(b0, b1)) by {
        assert(b0.tiles().dom() =~= b1.tiles().dom());
    }
    assert forall|i: int| 0 <= i < b1.placed_tiles@.len() implies match quest_outcome(b1, #[trigger] b1.placed_tiles@[i]) {
        Some(st) => st == FulfillmentStatus::Incomplete,
        None => true,
    } by {
        let t0 = b0.placed_tiles@[i];
        let t1 = b1.placed_tiles@[i];
        assert(t1 == f(t0));
        lemma_layout_outcome(b0, b1, t1);
        match quest_outcome(b0, t0) {
            Some(st) => {
                if st == FulfillmentStatus::Incomplete {
                    assert(quest_outcome(b0, t1) == quest_outcome(b0, t0));
                }
            },
            None => {},
        }
    }
    lemma_nothing_decided(b1, b1.placed_tiles@);
}


/// How many tiles of `t1s` are final while the tile at the same place in `t0s` held a
/// watched quest.
pub open spec fn count_final_now(t0s: Seq<PlacedTile>, t1s: Seq<PlacedTile>) -> nat
    decreases t0s.len(),
{
    if t0s.len() == 0 || t1s.len() == 0 {
        0
    } else {
        count_final_now(t0s.drop_last(), t1s.drop_last()) + if is_active_quest(t0s.last()) && t1s.last().quest_finalized {
            1nat
        } else {
            0nat
        }
    }
}

/// How many tiles of `t1s` show a success while the tile at the same place in `t0s`
/// held a watched quest.
pub open spec fn count_success_now(t0s: Seq<PlacedTile>, t1s: Seq<PlacedTile>) -> nat
    decreases t0s.len(),
{
    if t0s.len() == 0 || t1s.len() == 0 {
        0
    } else {
        count_success_now(t0s.drop_last(), t1s.drop_last()) + if is_active_quest(t0s.last())
            && t1s.last().quest_status == Some(FulfillmentStatus::Success) {
            1nat
        } else {
            0nat
        }
    }
}

/// The evaluated form of each tile, for board `b0`.
pub open spec fn evaluation_of(b0: &Board) -> spec_fn(PlacedTile) -> PlacedTile {
    |t: PlacedTile| evaluated_tile(t, quest_outcome(b0, t))
}

/// Counting over the evaluated tiles gives the evaluation's counts.
pub proof fn lemma_counts_of_evaluation(b0: &Board, ts: Seq<PlacedTile>)
    ensures
        count_resolved(b0, ts) == count_final_now(ts, ts.map_values(evaluation_of(b0))),
        count_succeeded(b0, ts) == count_success_now(ts, ts.map_values(evaluation_of(b0))),
        forall|i: int| 0 <= i < ts.len() && is_active_quest(#[trigger] ts[i]) && evaluation_of(b0)(ts[i]).quest_finalized
            && ts[i].quest_id is Some ==> resolved_ids(b0, ts).contains(ts[i].quest_id->0),
    decreases ts.len(),
{
    if ts.len() > 0 {
        let f = evaluation_of(b0);
        let rest = ts.drop_last();
        assert(ts.map_values(f).drop_last() =~= rest.map_values(f));
        lemma_counts_of_evaluation(b0, rest);
        let t = ts.last();
        assert(ts.map_values(f).last() == f(t));
        let prev = resolved_ids(b0, rest);
        assert forall|i: int| 0 <= i < ts.len() && is_active_quest(#[trigger] ts[i]) && f(ts[i]).quest_finalized
            && ts[i].quest_id is Some implies resolved_ids(b0, ts).contains(ts[i].quest_id->0) by {
            let id = ts[i].quest_id->0;
            if i < rest.len() {
                assert(rest[i] == ts[i]);
                assert(prev.contains(id));
                let k = choose|k: int| 0 <= k < prev.len() && prev[k] == id;
                match quest_outcome(b0, t) {
                    Some(st) => {
                        if st != FulfillmentStatus::Incomplete && t.quest_id is Some {
                            assert(resolved_ids(b0, ts) == prev.push(t.quest_id->0));
                            assert(resolved_ids(b0, ts)[k] == id);
                        }
                    },
                    None => {},
                }
            } else {
                assert(ts[i] == t);
                let ids = resolved_ids(b0, ts);
                assert(ids[ids.len() - 1] == id);
            }
        }
    }
}

/// Once the removed ids are dropped, no open quest carries one of them.
pub proof fn lemma_without_ids_excludes(qs: Seq<ActiveQuest>, ids: Seq<usize>)
    ensures
        forall|k: int| 0 <= k < without_ids(qs, ids).len() ==> !ids.contains(#[trigger] without_ids(qs, ids)[k].quest_id),
        forall|k: int| 0 <= k < without_ids(qs, ids).len() ==> qs.contains(#[trigger] without_ids(qs, ids)[k]),
    decreases ids.len(),
{
    if ids.len() > 0 {
        lemma_without_ids_excludes(qs, ids.drop_last());
        let prev = without_ids(qs, ids.drop_last());
        let cur = without_ids(qs, ids);
        assert forall|k: int| 0 <= k < cur.len() implies !ids.contains(#[trigger] cur[k].quest_id) && qs.contains(cur[k]) by {
            prev.lemma_filter_pred(other_than(ids.last()), k);
            assert(prev.filter(other_than(ids.last())).contains(cur[k])) by {
                assert(cur[k] == prev.filter(other_than(ids.last()))[k]);
            }
            prev.lemma_filter_contains_rev(other_than(ids.last()), cur[k]);
            let j = choose|j: int| 0 <= j < prev.len() && prev[j] == cur[k];
            if ids.contains(cur[k].quest_id) {
                let m = choose|m: int| 0 <= m < ids.len() && ids[m] == cur[k].quest_id;
                if m < ids.len() - 1 {
                    assert(ids.drop_last()[m] == cur[k].quest_id);
                }
            }
        }
    }
}

/// Evaluating the quests touches only the tiles holding a watched quest; each of those
/// records a status and is made final exactly when it succeeded or failed; the two
/// counts returned are the tiles made final and those that succeeded, the second no
/// more than the first; and the id of every quest made final is among those a quest
/// manager drops, so none of its open quests keeps it.
pub proof fn lemma_evaluation_law(b0: &Board, b1: &Board, qs: Seq<ActiveQuest>)
    requires
        b0.wf(),
        evaluated_on(b0, b1),
    ensures
        forall|i: int| 0 <= i < b0.placed_tiles@.len() && !is_active_quest(#[trigger] b0.placed_tiles@[i]) ==> b1.placed_tiles@[i]
            == b0.placed_tiles@[i],
        forall|i: int| 0 <= i < b0.placed_tiles@.len() && is_active_quest(#[trigger] b0.placed_tiles@[i]) ==> b1.placed_tiles@[i].quest_status
            is Some && (b1.placed_tiles@[i].quest_finalized <==> (b1.placed_tiles@[i].quest_status == Some(FulfillmentStatus::Success)
            || b1.placed_tiles@[i].quest_status == Some(FulfillmentStatus::Failed))),
        count_resolved(b0, b0.placed_tiles@) == count_final_now(b0.placed_tiles@, b1.placed_tiles@),
        count_succeeded(b0, b0.placed_tiles@) == count_success_now(b0.placed_tiles@, b1.placed_tiles@),
        count_succeeded(b0, b0.placed_tiles@) <= count_resolved(b0, b0.placed_tiles@),
        forall|i: int, k: int| 0 <= i < b0.placed_tiles@.len() && is_active_quest(#[trigger] b0.placed_tiles@[i])
            && b1.placed_tiles@[i].quest_finalized && b0.placed_tiles@[i].quest_id is Some && 0 <= k < without_ids(
                qs,
                resolved_ids(b0, b0.placed_tiles@),
            ).len() ==> (#[trigger] without_ids(qs, resolved_ids(b0, b0.placed_tiles@))[k]).quest_id
                != b0.placed_tiles@[i].quest_id->0,
{
    let f = evaluation_of(b0);
    let ts = b0.placed_tiles@;
    assert(b1.placed_tiles@ == ts.map_values(f));
    lemma_counts_of_evaluation(b0, ts);
    lemma_counts_bounded(b0, ts);
    lemma_without_ids_excludes(qs, resolved_ids(b0, ts));
    assert forall|i: int| 0 <= i < ts.len() && is_active_quest(#[trigger] ts[i]) implies b1.placed_tiles@[i].quest_status
        is Some && (b1.placed_tiles@[i].quest_finalized <==> (b1.placed_tiles@[i].quest_status == Some(FulfillmentStatus::Success)
        || b1.placed_tiles@[i].quest_status == Some(FulfillmentStatus::Failed))) by {
        assert(b1.placed_tiles@[i] == f(ts[i]));
    }
    assert forall|i: int, k: int| 0 <= i < ts.len() && is_active_quest(#[trigger] ts[i]) && b1.placed_tiles@[i].quest_finalized
        && ts[i].quest_id is Some && 0 <= k < without_ids(qs, resolved_ids(b0, ts)).len() implies (#[trigger] without_ids(
        qs,
        resolved_ids(b0, ts),
    )[k]).quest_id != ts[i].quest_id->0 by {
        assert(b1.placed_tiles@[i] == f(ts[i]));
        assert(resolved_ids(b0, ts).contains(ts[i].quest_id->0));
    }
}


/// Direction `e` turned by `p`.
pub open spec fn turned_dir(p: nat) -> spec_fn(usize) -> usize {
    |e: usize| ((e + p) % 6) as usize
}

/// Directions shifted one by one by a turn give the shifted set of directions.
pub proof fn lemma_shift_set(a: Seq<usize>, b: Seq<usize>, p: nat)
    requires
        a.len() == b.len(),
        forall|k: int| 0 <= k < a.len() ==> #[trigger] b[k] == turned_dir(p)(a[k]),
    ensures
        b.to_set() == a.to_set().map(turned_dir(p)),
{
    assert forall|y: usize| b.to_set().contains(y) <==> a.to_set().map(turned_dir(p)).contains(y) by {
        if b.to_set().contains(y) {
            let k = choose|k: int| 0 <= k < b.len() && b[k] == y;
            assert(a.to_set().contains(a[k]));
        }
        if a.to_set().map(turned_dir(p)).contains(y) {
            let x = choose|x: usize| a.to_set().contains(x) && turned_dir(p)(x) == y;
            let k = choose|k: int| 0 <= k < a.len() && a[k] == x;
            assert(b[k] == y);
        }
    }
    assert(b.to_set() =~= a.to_set().map(turned_dir(p)));
}

/// The directions of terrain `gt` among the first `n` edges are exactly those whose edge
/// has that terrain.
pub proof fn lemma_dirs_of_group_contains(e: Seq<EdgeType>, gt: GroupType, n: nat, d: usize)
    requires
        n <= 6,
    ensures
        dirs_of_group(e, gt, n).contains(d) <==> d < n && spec_group_of_edge(e[d as int]) == Some(gt),
    decreases n,
{
    if n > 0 {
        lemma_dirs_of_group_contains(e, gt, (n - 1) as nat, d);
        let prev = dirs_of_group(e, gt, (n - 1) as nat);
        let cur = dirs_of_group(e, gt, n);
        if spec_group_of_edge(e[n - 1]) == Some(gt) {
            assert(cur == prev.push((n - 1) as usize));
            if prev.contains(d) {
                let k = choose|k: int| 0 <= k < prev.len() && prev[k] == d;
                assert(cur[k] == d);
            }
            if d == n - 1 {
                assert(cur[prev.len() as int] == d);
            }
            if cur.contains(d) && d != n - 1 {
                let k = choose|k: int| 0 <= k < cur.len() && cur[k] == d;
                assert(k < prev.len());
                assert(prev[k] == d);
            }
        }
    }
}

/// Turning a whole tile's edges shifts the directions of each terrain.
pub proof fn lemma_dirs_turn(e: Seq<EdgeType>, gt: GroupType, p: nat)
    ensures
        dirs_of_group(rotated(e, p), gt, 6).to_set() == dirs_of_group(rotated(e, 0), gt, 6).to_set().map(turned_dir(p)),
{
    let a = dirs_of_group(rotated(e, 0), gt, 6);
    let b = dirs_of_group(rotated(e, p), gt, 6);
    assert forall|y: usize| b.to_set().contains(y) <==> a.to_set().map(turned_dir(p)).contains(y) by {
        lemma_dirs_of_group_contains(rotated(e, p), gt, 6, y);
        if b.to_set().contains(y) {
            let k = choose|k: int| 0 <= k < b.len() && b[k] == y;
            assert(b.contains(y));
            let x = ((y + 6 - (p % 6)) % 6) as usize;
            lemma_dirs_of_group_contains(rotated(e, 0), gt, 6, x);
            assert(a.contains(x));
            let j = choose|j: int| 0 <= j < a.len() && a[j] == x;
            assert(a.to_set().contains(x));
            assert(turned_dir(p)(x) == y) by (nonlinear_arith)
                requires
                    x == (y + 6 - (p % 6)) % 6,
                    y < 6,
                    turned_dir(p)(x) == ((x + p) % 6) as usize,
            ;
        }
        if a.to_set().map(turned_dir(p)).contains(y) {
            let x = choose|x: usize| a.to_set().contains(x) && turned_dir(p)(x) == y;
            let j = choose|j: int| 0 <= j < a.len() && a[j] == x;
            assert(a.contains(x));
            lemma_dirs_of_group_contains(rotated(e, 0), gt, 6, x);
            assert((y + 6 - (p % 6)) % 6 == x) by (nonlinear_arith)
                requires
                    y == (x + p) % 6,
                    x < 6,
            ;
            assert(b.contains(y));
            let k = choose|k: int| 0 <= k < b.len() && b[k] == y;
            assert(b.to_set().contains(y));
        }
    }
    assert(b.to_set() =~= a.to_set().map(turned_dir(p)));
}

/// Two turns of a tile differ only by a shift of each segment's directions: the same
/// segments, each with the same terrain, shape and element count, covering the
/// directions of the unturned segment turned by `p`. A normal tile has one segment per
/// painted segment, with the element count of the table.
pub proof fn lemma_segments_turn(t: GeneratedTile, p: nat)
    ensures
        spec_segments(t, p).len() == spec_segments(t, 0).len(),
        forall|i: int| 0 <= i < spec_segments(t, p).len() ==> {
            let b = #[trigger] spec_segments(t, p)[i];
            let a = spec_segments(t, 0)[i];
            &&& b.0 == a.0
            &&& b.1 == a.1
            &&& b.2 == a.2
            &&& b.3.to_set() == a.3.to_set().map(turned_dir(p))
        },
        t matches GeneratedTile::Normal { segments, .. } ==> spec_segments(t, 0).len() == segments@.len() && forall|i: int|
            0 <= i < segments@.len() ==> #[trigger] spec_segments(t, 0)[i].2 == spec_segment_element_count(
                segments@[i].group_type,
                segments@[i].segment_type,
            ),
{
    match t {
        GeneratedTile::Normal { segments, .. } => {
            let sb = spec_segments(t, p);
            let sa = spec_segments(t, 0);
            assert forall|i: int| 0 <= i < sb.len() implies sb[i].3.to_set() == sa[i].3.to_set().map(turned_dir(p)) by {
                let seg = segments@[i];
                assert forall|k: int| 0 <= k < sa[i].3.len() implies #[trigger] sb[i].3[k] == turned_dir(p)(sa[i].3[k]) by {
                    let x = spec_base_edges(seg.segment_type)[k] + seg.rotation;
                    assert(((x % 6) + p) % 6 == (x + p) % 6) by (nonlinear_arith)
                        requires
                            x >= 0,
                    ;
                }
                lemma_shift_set(sa[i].3, sb[i].3, p);
            }
        },
        GeneratedTile::Quest { quest_data, .. } => {
            let name = quest_data.quest_type@;
            let pl = quest_fold(spec_config_tokens(name)).0;
            if pl.len() > 0 {
                let sb = spec_segments(t, p);
                let sa = spec_segments(t, 0);
                assert forall|i: int| 0 <= i < sb.len() implies sb[i].3.to_set() == sa[i].3.to_set().map(turned_dir(p)) by {
                    let pi = pl[i];
                    assert forall|k: int| 0 <= k < sa[i].3.len() implies #[trigger] sb[i].3[k] == turned_dir(p)(sa[i].3[k]) by {
                        let x = spec_base_edges(pi.0)[k] + pi.3;
                        assert(((x % 6) + p) % 6 == (x + p) % 6) by (nonlinear_arith)
                            requires
                                x >= 0,
                        ;
                    }
                    lemma_shift_set(sa[i].3, sb[i].3, p);
                }
            } else {
                let gt = spec_primary_group_type(name);
                lemma_dirs_turn(spec_hex_edges(t), gt, p);
            }
        },
        GeneratedTile::Reward { .. } => {
            let full = seq![0usize, 1, 2, 3, 4, 5];
            assert forall|y: usize| full.to_set().contains(y) <==> full.to_set().map(turned_dir(p)).contains(y) by {
                if full.to_set().contains(y) {
                    let k = choose|k: int| 0 <= k < full.len() && full[k] == y;
                    let x = ((y + 6 - (p % 6)) % 6) as usize;
                    assert(full[x as int] == x);
                    assert(full.to_set().contains(x));
                    assert(turned_dir(p)(x) == y) by (nonlinear_arith)
                        requires
                            x == (y + 6 - (p % 6)) % 6,
                            y < 6,
                            turned_dir(p)(x) == ((x + p) % 6) as usize,
                    ;
                }
                if full.to_set().map(turned_dir(p)).contains(y) {
                    let x = choose|x: usize| full.to_set().contains(x) && turned_dir(p)(x) == y;
                    assert(y < 6);
                    assert(full[y as int] == y);
                }
            }
            assert(full.to_set() =~= full.to_set().map(turned_dir(p)));
        },
    }
}


/// The parts joined into one text with `sep` between consecutive parts.
pub open spec fn join_on(parts: Seq<Seq<char>>, sep: char) -> Seq<char>
    decreases parts.len(),
{
    if parts.len() == 0 {
        Seq::<char>::empty()
    } else if parts.len() == 1 {
        parts[0]
    } else {
        join_on(parts.drop_last(), sep) + seq![sep] + parts.last()
    }
}

/// A text without `sep` splits into itself alone.
pub proof fn lemma_split_plain(w: Seq<char>, sep: char)
    requires
        !w.contains(sep),
    ensures
        split_on(w, sep) == seq![w],
    decreases w.len(),
{
    if w.len() > 0 {
        assert(!w.drop_last().contains(sep)) by {
            if w.drop_last().contains(sep) {
                let k = choose|k: int| 0 <= k < w.drop_last().len() && w.drop_last()[k] == sep;
                assert(w[k] == sep);
            }
        }
        lemma_split_plain(w.drop_last(), sep);
        assert(w[w.len() - 1] != sep);
        let prev = split_on(w.drop_last(), sep);
        assert(prev.last() == w.drop_last());
        assert(w.drop_last().push(w.last()) =~= w);
        assert(prev.update(prev.len() - 1, prev.last().push(w.last())) =~= seq![w]);
    } else {
        assert(w =~= Seq::<char>::empty());
    }
}

/// Splitting `s`, a separator and a text without separator gives the pieces of `s` and
/// that text.
pub proof fn lemma_split_append(s: Seq<char>, w: Seq<char>, sep: char)
    requires
        !w.contains(sep),
    ensures
        split_on(s + seq![sep] + w, sep) == split_on(s, sep).push(w),
    decreases w.len(),
{
    if w.len() == 0 {
        let t = s + seq![sep] + w;
        assert(t.drop_last() =~= s);
        assert(t.last() == sep);
        assert(w =~= Seq::<char>::empty());
        assert(split_on(t, sep) == split_on(s, sep).push(Seq::<char>::empty()));
    } else {
        let w0 = w.drop_last();
        assert(!w0.contains(sep)) by {
            if w0.contains(sep) {
                let k = choose|k: int| 0 <= k < w0.len() && w0[k] == sep;
                assert(w[k] == sep);
            }
        }
        lemma_split_append(s, w0, sep);
        assert((s + seq![sep] + w).drop_last() =~= s + seq![sep] + w0);
        assert((s + seq![sep] + w).last() == w[w.len() - 1]);
        assert(w[w.len() - 1] != sep);
        lemma_split_on_nonempty(s + seq![sep] + w0, sep);
        let prev = split_on(s + seq![sep] + w0, sep);
        assert(prev == split_on(s, sep).push(w0));
        assert(prev.last() == w0);
        assert(w0.push(w.last()) =~= w);
        assert(prev.update(prev.len() - 1, prev.last().push(w.last())) =~= split_on(s, sep).push(w));
    }
}

/// Parts without the separator, at least one, split back out of their join.
pub proof fn lemma_split_join(parts: Seq<Seq<char>>, sep: char)
    requires
        parts.len() >= 1,
        forall|i: int| 0 <= i < parts.len() ==> !(#[trigger] parts[i]).contains(sep),
    ensures
        split_on(join_on(parts, sep), sep) == parts,
    decreases parts.len(),
{
    if parts.len() == 1 {
        lemma_split_plain(parts[0], sep);
        assert(seq![parts[0]] =~= parts);
    } else {
        let rest = parts.drop_last();
        assert forall|i: int| 0 <= i < rest.len() implies !(#[trigger] rest[i]).contains(sep) by {
            assert(rest[i] == parts[i]);
        }
        lemma_split_join(rest, sep);
        assert(!parts.last().contains(sep)) by {
            assert(parts.last() == parts[parts.len() - 1]);
        }
        lemma_split_append(join_on(rest, sep), parts.last(), sep);
        assert(rest.push(parts.last()) =~= parts);
    }
}

/// Shape codes read back as their shapes.
pub proof fn lemma_shapes_of_codes(v: Seq<SegmentType>)
    ensures
        shapes_of(v.map_values(|st: SegmentType| spec_shape_code(st))) == v,
    decreases v.len(),
{
    if v.len() > 0 {
        let f = |st: SegmentType| spec_shape_code(st);
        assert(v.map_values(f).drop_last() =~= v.drop_last().map_values(f));
        lemma_shapes_of_codes(v.drop_last());
        assert(v.map_values(f).last() == spec_shape_code(v.last()));
        assert(shape_of(spec_shape_code(v.last())) == Some(v.last()));
        assert(v.drop_last().push(v.last()) =~= v);
    }
}

/// Reading the segment shapes of a preset name made of shape codes joined by '_' gives
/// back those shapes, in order (an empty name gives none).
pub proof fn lemma_parse_segments_round_trip(v: Seq<SegmentType>)
    ensures
        shapes_of(split_on(join_on(v.map_values(|st: SegmentType| spec_shape_code(st)), '_'), '_')) == v,
{
    let codes = v.map_values(|st: SegmentType| spec_shape_code(st));
    if v.len() == 0 {
        assert(join_on(codes, '_') == Seq::<char>::empty());
        let ps = seq![Seq::<char>::empty()];
        assert(split_on(Seq::<char>::empty(), '_') == ps);
        assert(shapes_of(ps) == Seq::<SegmentType>::empty()) by {
            assert(ps.drop_last() =~= Seq::<Seq<char>>::empty());
            assert(shapes_of(Seq::<Seq<char>>::empty()) == Seq::<SegmentType>::empty());
            assert(ps.last() == Seq::<char>::empty());
            assert(shape_of(Seq::<char>::empty()) is None);
        }
        assert(v =~= Seq::<SegmentType>::empty());
    } else {
        assert forall|i: int| 0 <= i < codes.len() implies !(#[trigger] codes[i]).contains('_') by {
            let c = spec_shape_code(v[i]);
            assert(codes[i] == c);
            if c.contains('_') {
                let k = choose|k: int| 0 <= k < c.len() && c[k] == '_';
            }
        }
        lemma_split_join(codes, '_');
        lemma_shapes_of_codes(v);
    }
}


/// The edges that carry water: hard water, lake water and a station.
pub open spec fn carries_water(e: EdgeType) -> bool {
    e == EdgeType::Water || e == EdgeType::FlexibleWater || e == EdgeType::WaterTrainStation
}

/// The edges of dry land: plain, agriculture, forest and village.
pub open spec fn is_land(e: EdgeType) -> bool {
    e == EdgeType::Plain || e == EdgeType::Agriculture || e == EdgeType::Forest || e == EdgeType::Village
}

/// Two edges of different kinds fit for scoring only when one of them is a lake or a
/// station edge; a lake edge fits only plain, water, lake and station edges; a station
/// edge fits only plain, water, track, lake and station edges; and those pairs do fit.
pub proof fn lemma_matching_partners(a: EdgeType, b: EdgeType)
    ensures
        spec_matching(a, b) && a != b ==> a == EdgeType::FlexibleWater || b == EdgeType::FlexibleWater || a
            == EdgeType::WaterTrainStation || b == EdgeType::WaterTrainStation,
        is_land(a) && is_land(b) && a != b ==> !spec_matching(a, b),
        !spec_matching(EdgeType::Forest, EdgeType::Agriculture),
        spec_matching(EdgeType::FlexibleWater, b) <==> (b == EdgeType::Plain || b == EdgeType::Water || b
            == EdgeType::FlexibleWater || b == EdgeType::WaterTrainStation),
        spec_matching(EdgeType::WaterTrainStation, b) <==> (b == EdgeType::Plain || b == EdgeType::Water || b
            == EdgeType::TrainTracks || b == EdgeType::FlexibleWater || b == EdgeType::WaterTrainStation),
        a != EdgeType::FlexibleWater && a != EdgeType::WaterTrainStation && b != EdgeType::FlexibleWater && b
            != EdgeType::WaterTrainStation ==> (spec_matching(a, b) <==> a == b),
{
}

/// Hard water lies only against an edge that carries water, hard tracks only against
/// tracks or a station; dry land lies against any edge but hard water and tracks; a
/// station lies against anything, a lake edge against anything but tracks. In
/// particular no dry-land edge may lie against hard water.
pub proof fn lemma_compatible_partners(a: EdgeType, b: EdgeType)
    ensures
        spec_compatible(EdgeType::Water, b) <==> carries_water(b),
        spec_compatible(b, EdgeType::Water) <==> carries_water(b),
        spec_compatible(EdgeType::TrainTracks, b) <==> (b == EdgeType::TrainTracks || b == EdgeType::WaterTrainStation),
        spec_compatible(b, EdgeType::TrainTracks) <==> (b == EdgeType::TrainTracks || b == EdgeType::WaterTrainStation),
        is_land(a) ==> (spec_compatible(a, b) <==> b != EdgeType::Water && b != EdgeType::TrainTracks),
        is_land(a) && is_land(b) ==> spec_compatible(a, b),
        spec_compatible(EdgeType::WaterTrainStation, b),
        spec_compatible(EdgeType::FlexibleWater, b) <==> b != EdgeType::TrainTracks,
        !spec_compatible(EdgeType::Water, EdgeType::Forest),
{
}

/// A placement the rule allows never puts an edge against a neighbour's hard water
/// unless that edge carries water, nor against hard tracks unless it is a track or a
/// station edge.
pub proof fn lemma_placement_respects_water(b: &Board, q: i32, r: i32, tile: GeneratedTile, rot: nat, d: nat)
    requires
        spec_can_place(b, q, r, tile, rot),
        d < 6,
        b.tiles().dom().contains(spec_neighbor(q, r, d)),
    ensures
        ({
            let mine = rotated(spec_hex_edges(tile), rot)[d as int];
            let theirs = b.tiles()[spec_neighbor(q, r, d)].edge_config.edges@[spec_opposite(d) as int];
            &&& theirs == EdgeType::Water ==> carries_water(mine)
            &&& theirs == EdgeType::TrainTracks ==> (mine == EdgeType::TrainTracks || mine == EdgeType::WaterTrainStation)
            &&& mine == EdgeType::Water ==> carries_water(theirs)
        }),
{
}

/// How a quest ends: a "more than" quest succeeds as soon as the gathered count reaches
/// the target; an "exactly" quest succeeds exactly at the target and fails beyond it; a
/// quest below its target fails when no open edge is left and stays open otherwise.
pub proof fn lemma_decide_status(eq: EqualityComparison, ext: nat, target: nat, open: nat)
    ensures
        eq == EqualityComparison::MoreThan && ext >= target ==> decide_status(eq, ext, target, open)
            == FulfillmentStatus::Success,
        eq == EqualityComparison::Exactly ==> (decide_status(eq, ext, target, open) == FulfillmentStatus::Success
            <==> ext == target),
        eq == EqualityComparison::Exactly && ext > target ==> decide_status(eq, ext, target, open)
            == FulfillmentStatus::Failed,
        ext < target && open == 0 ==> decide_status(eq, ext, target, open) == FulfillmentStatus::Failed,
        ext < target && open > 0 ==> decide_status(eq, ext, target, open) == FulfillmentStatus::Incomplete,
        decide_status(eq, ext, target, open) == FulfillmentStatus::Success ==> ext >= target,
        decide_status(eq, ext, target, open) == FulfillmentStatus::Incomplete ==> ext < target && open > 0,
{
}

/// A watched quest whose groups gather at least its shown target succeeds on evaluation
/// and is made final when it is a "more than" quest, and one whose count is below the
/// target with no open edge left around its groups fails.
pub proof fn lemma_quest_evaluation_outcome(b0: &Board, b1: &Board, i: int)
    requires
        b0.wf(),
        evaluated_on(b0, b1),
        0 <= i < b0.placed_tiles@.len(),
        is_active_quest(b0.placed_tiles@[i]),
    ensures
        ({
            let t = b0.placed_tiles@[i];
            let qd = t.tile->quest_data;
            let pos = (t.q, t.r);
            let gt = spec_primary_group_type(qd.quest_type@);
            let ext = spec_external_count(b0, pos, gt);
            let target = spec_remaining_display(&qd);
            let open = open_edges_sum(b0, quest_members(b0, pos, gt), gt, None);
            &&& qd.equality == EqualityComparison::MoreThan && ext >= target ==> b1.placed_tiles@[i].quest_status == Some(
                FulfillmentStatus::Success,
            ) && b1.placed_tiles@[i].quest_finalized
            &&& qd.equality == EqualityComparison::Exactly && ext == target ==> b1.placed_tiles@[i].quest_status == Some(
                FulfillmentStatus::Success,
            ) && b1.placed_tiles@[i].quest_finalized
            &&& ext < target && open == 0 ==> b1.placed_tiles@[i].quest_status == Some(FulfillmentStatus::Failed)
                && b1.placed_tiles@[i].quest_finalized
            &&& ext < target && open > 0 ==> b1.placed_tiles@[i].quest_status == Some(FulfillmentStatus::Incomplete)
                && !b1.placed_tiles@[i].quest_finalized
        }),
{
    let t = b0.placed_tiles@[i];
    assert(b1.placed_tiles@[i] == evaluated_tile(t, quest_outcome(b0, t)));
    let qd = t.tile->quest_data;
    let pos = (t.q, t.r);
    let gt = spec_primary_group_type(qd.quest_type@);
    lemma_decide_status(
        qd.equality,
        spec_external_count(b0, pos, gt),
        spec_remaining_display(&qd),
        open_edges_sum(b0, quest_members(b0, pos, gt), gt, None),
    );
}

/// Stepping through the valid turns is a cycle: going one step backward and then one
/// step forward (or forward then backward) from a valid turn comes back to it, and every
/// step from a valid turn lands on a valid turn other than it unless it is the only one.
pub proof fn lemma_rotation_steps_undo(valid: Seq<usize>, current: usize)
    requires
        valid.no_duplicates(),
        valid.contains(current),
    ensures
        next_rotation(valid, next_rotation(valid, current, false), true) == current,
        next_rotation(valid, next_rotation(valid, current, true), false) == current,
        valid.contains(next_rotation(valid, current, true)),
        valid.contains(next_rotation(valid, current, false)),
        valid.len() > 1 ==> next_rotation(valid, current, true) != current && next_rotation(valid, current, false)
            != current,
{
    let len = valid.len() as int;
    let idx = valid.index_of(current);
    assert(0 <= idx < len && valid[idx] == current);
    let bi = (idx + len - 1) % len;
    let fi = (idx + 1) % len;
    assert(0 <= bi < len && 0 <= fi < len);
    let back = valid[bi];
    let fwd = valid[fi];
    assert(next_rotation(valid, current, false) == back);
    assert(next_rotation(valid, current, true) == fwd);
    assert(valid.contains(back));
    assert(valid.contains(fwd));
    let bj = valid.index_of(back);
    assert(valid[bj] == back && 0 <= bj < len);
    assert(bj == bi);
    let fj = valid.index_of(fwd);
    assert(valid[fj] == fwd && 0 <= fj < len);
    assert(fj == fi);
    assert((bi + 1) % len == idx) by (nonlinear_arith)
        requires
            bi == (idx + len - 1) % len,
            0 <= idx < len,
    ;
    assert((fi + len - 1) % len == idx) by (nonlinear_arith)
        requires
            fi == (idx + 1) % len,
            0 <= idx < len,
    ;
    if len > 1 {
        assert(bi != idx) by (nonlinear_arith)
            requires
                bi == (idx + len - 1) % len,
                0 <= idx < len,
                len > 1,
        ;
        assert(fi != idx) by (nonlinear_arith)
            requires
                fi == (idx + 1) % len,
                0 <= idx < len,
                len > 1,
        ;
    }
}

/// Stepping through the valid turns of a tile at a position undoes itself, as above, for
/// the turns the placement rule allows.
pub proof fn lemma_next_valid_rotation_undo(b: &Board, q: i32, r: i32, tile: GeneratedTile, current: usize)
    requires
        spec_can_place(b, q, r, tile, current as nat),
        current < 6,
    ensures
        next_rotation(valid_rotations(b, q, r, tile, 6), next_rotation(valid_rotations(b, q, r, tile, 6), current, false), true)
            == current,
        next_rotation(valid_rotations(b, q, r, tile, 6), next_rotation(valid_rotations(b, q, r, tile, 6), current, true), false)
            == current,
{
    lemma_valid_rotations(b, q, r, tile, 6);
    lemma_valid_rotations_complete(b, q, r, tile, 6, current);
    lemma_rotation_steps_undo(valid_rotations(b, q, r, tile, 6), current);
}

/// Every turn below `n` that the rule allows is among the valid turns.
pub proof fn lemma_valid_rotations_complete(b: &Board, q: i32, r: i32, tile: GeneratedTile, n: nat, k: usize)
    requires
        n <= 6,
        k < n,
        spec_can_place(b, q, r, tile, k as nat),
    ensures
        valid_rotations(b, q, r, tile, n).contains(k),
    decreases n,
{
    let prev = valid_rotations(b, q, r, tile, (n - 1) as nat);
    if k < n - 1 {
        lemma_valid_rotations_complete(b, q, r, tile, (n - 1) as nat, k);
        let j = choose|j: int| 0 <= j < prev.len() && prev[j] == k;
        if spec_can_place(b, q, r, tile, (n - 1) as nat) {
            assert(valid_rotations(b, q, r, tile, n)[j] == k);
        }
    } else {
        assert(valid_rotations(b, q, r, tile, n) == prev.push(k));
        assert(valid_rotations(b, q, r, tile, n)[prev.len() as int] == k);
    }
}

/// Each terrain shows the edge of its own name, and reads back from it.
pub proof fn lemma_terrain_edges(gt: GroupType)
    ensures
        spec_group_of_edge(spec_edge_of_group(gt)) == Some(gt),
        gt == GroupType::Forest ==> spec_edge_of_group(gt) == EdgeType::Forest,
        gt == GroupType::Village ==> spec_edge_of_group(gt) == EdgeType::Village,
        gt == GroupType::Agriculture ==> spec_edge_of_group(gt) == EdgeType::Agriculture,
        gt == GroupType::TrainTracks ==> spec_edge_of_group(gt) == EdgeType::TrainTracks,
        gt == GroupType::Water ==> spec_edge_of_group(gt) == EdgeType::Water,
{
}

/// On a quest tile a water segment of lake shape (2A, 3A, 4A, 5A, 6A) or marked hybrid
/// shows lake water, any other water segment hard water, and a segment of another
/// terrain that terrain's edge; on a normal tile only a full-tile or hybrid water segment
/// shows lake water.
pub proof fn lemma_segment_edges(st: SegmentType, gt: GroupType, hybrid: bool, seg: SegmentData)
    ensures
        gt == GroupType::Water && (st == SegmentType::ST2A || st == SegmentType::ST3A || st == SegmentType::ST4A || st
            == SegmentType::ST5A || st == SegmentType::ST6A) ==> quest_seg_edge(st, gt, hybrid) == EdgeType::FlexibleWater,
        gt == GroupType::Water && hybrid ==> quest_seg_edge(st, gt, hybrid) == EdgeType::FlexibleWater,
        gt == GroupType::Water && !hybrid && (st == SegmentType::ST1A || st == SegmentType::ST2B || st == SegmentType::ST2C
            || st == SegmentType::ST3B || st == SegmentType::ST3C || st == SegmentType::ST3D || st == SegmentType::ST4B
            || st == SegmentType::ST4C) ==> quest_seg_edge(st, gt, hybrid) == EdgeType::Water,
        gt != GroupType::Water ==> spec_group_of_edge(quest_seg_edge(st, gt, hybrid)) == Some(gt) && quest_seg_edge(
            st,
            gt,
            hybrid,
        ) != EdgeType::FlexibleWater,
        gt == GroupType::Water ==> spec_group_of_edge(quest_seg_edge(st, gt, hybrid)) == Some(GroupType::Water),
        seg.group_type == GroupType::Water ==> (normal_seg_edge(seg) == EdgeType::FlexibleWater <==> (seg.segment_type
            == SegmentType::ST6A || seg.is_hybrid)) && spec_group_of_edge(normal_seg_edge(seg)) == Some(GroupType::Water),
        seg.group_type != GroupType::Water ==> spec_group_of_edge(normal_seg_edge(seg)) == Some(seg.group_type),
{
}


/// The placement rule refuses an occupied position and, on a non-empty board, any
/// position other than the centre that touches no placed tile; an allowed placement
/// faces every placed neighbour with a compatible edge.
pub proof fn lemma_placement_rule(b: &Board, q: i32, r: i32, tile: GeneratedTile, rot: nat)
    ensures
        b.tiles().dom().contains((q, r)) ==> !spec_can_place(b, q, r, tile, rot),
        spec_can_place(b, q, r, tile, rot) && b.placed_tiles@.len() > 0 && (q, r) != (0i32, 0i32) ==> exists|d: nat|
            d < 6 && b.tiles().dom().contains(#[trigger] spec_neighbor(q, r, d)),
        spec_can_place(b, q, r, tile, rot) ==> forall|d: nat| d < 6 && b.tiles().dom().contains(#[trigger] spec_neighbor(q, r, d))
            ==> spec_compatible(
            rotated(spec_hex_edges(tile), rot)[d as int],
            b.tiles()[spec_neighbor(q, r, d)].edge_config.edges@[spec_opposite(d) as int],
        ),
        b.placed_tiles@.len() == 0 ==> spec_can_place(b, q, r, tile, rot),
{
    if b.placed_tiles@.len() == 0 {
        crate::keyed::lemma_keyed_dom(b.placed_tiles@, tile_key(), (q, r));
    }
}

/// Scoring under the standard rules: ten points per fitting edge, sixty points and one
/// tile per perfect tile, a hundred points and five tiles per bubble quest, fifty points
/// per flag quest; the total is the sum of the parts; a perfect tile is surrounded on all
/// six sides with all six edges fitting; and the placed tile and its neighbours make at
/// most seven perfect tiles.
pub proof fn lemma_standard_scoring(b: &Board, p: (i32, i32), h: usize, bubble: usize, flag: usize)
    ensures
        ({
            let bd = spec_breakdown(fresh_manager(h), b, p, bubble, flag);
            &&& bd.fit_score == 10 * bd.matching_edges
            &&& bd.perfect_score == 60 * bd.perfect_count
            &&& bd.bubble_quest_score == 100 * bubble
            &&& bd.flag_quest_score == 50 * flag
            &&& bd.bonus_tiles_gained == bd.perfect_count + 5 * bubble
            &&& bd.total_score_gained == bd.fit_score + bd.perfect_score + bd.bubble_quest_score + bd.flag_quest_score
            &&& bd.matching_edges <= 6
            &&& bd.perfect_count <= 7
        }) || !scoring_fits(fresh_manager(h), b, p, bubble, flag),
        is_perfect(b, p) <==> (match_counts(b, p).1 == 6 && match_counts(b, p).0 == 6),
        match_counts(b, p).0 <= match_counts(b, p).1 <= 6,
{
    lemma_match_scan_bound(b, p, 6);
    lemma_perfect_neighbors_bound(b, p, 6);
}


/// Whether segment `seg` of a normal tile covers direction `j`.
pub open spec fn covers(seg: SegmentData, j: int) -> bool {
    exists|k: int| 0 <= k < spec_base_edges(seg.segment_type).len() && (#[trigger] spec_base_edges(seg.segment_type)[k]
        + seg.rotation) % 6 == j
}

/// Painting a shape turned by `rot` sets exactly the directions it covers.
pub proof fn lemma_paint_at<T>(s: Seq<T>, base: Seq<usize>, rot: nat, v: T, j: int)
    requires
        s.len() == 6,
        0 <= j < 6,
    ensures
        paint(s, base, rot, v).len() == 6,
        paint(s, base, rot, v)[j] == if exists|k: int| 0 <= k < base.len() && (#[trigger] base[k] + rot) % 6 == j {
            v
        } else {
            s[j]
        },
    decreases base.len(),
{
    lemma_paint_len(s, base, rot, v);
    if base.len() > 0 {
        let rest = base.drop_last();
        lemma_paint_at(s, rest, rot, v, j);
        lemma_paint_len(s, rest, rot, v);
        if exists|k: int| 0 <= k < rest.len() && (#[trigger] rest[k] + rot) % 6 == j {
            let k = choose|k: int| 0 <= k < rest.len() && (#[trigger] rest[k] + rot) % 6 == j;
            assert(base[k] == rest[k]);
        } else if (base.last() + rot) % 6 == j {
            assert(base[base.len() - 1] == base.last());
        } else {
            assert forall|k: int| 0 <= k < base.len() implies (#[trigger] base[k] + rot) % 6 != j by {
                if k < rest.len() {
                    assert(base[k] == rest[k]);
                }
            }
        }
    }
}

/// A normal tile's edges: six of them; a direction that no segment covers is plain; a
/// direction the last segment covers shows that segment's edge.
pub proof fn lemma_normal_edges(segs: Seq<SegmentData>, j: int)
    requires
        0 <= j < 6,
    ensures
        normal_edges(segs).len() == 6,
        (forall|i: int| 0 <= i < segs.len() ==> !covers(#[trigger] segs[i], j)) ==> normal_edges(segs)[j] == EdgeType::Plain,
        segs.len() > 0 && covers(segs.last(), j) ==> normal_edges(segs)[j] == normal_seg_edge(segs.last()),
    decreases segs.len(),
{
    if segs.len() == 0 {
    } else {
        let seg = segs.last();
        lemma_normal_edges(segs.drop_last(), j);
        lemma_paint_at(normal_edges(segs.drop_last()), spec_base_edges(seg.segment_type), seg.rotation as nat,
            normal_seg_edge(seg), j);
        if forall|i: int| 0 <= i < segs.len() ==> !covers(#[trigger] segs[i], j) {
            assert forall|i: int| 0 <= i < segs.drop_last().len() implies !covers(#[trigger] segs.drop_last()[i], j) by {
                assert(segs.drop_last()[i] == segs[i]);
            }
            assert(!covers(segs[segs.len() - 1], j));
        }
    }
}

/// The digit that begins a shape code, as a number.
pub open spec fn code_digit(st: SegmentType) -> nat {
    (spec_shape_code(st)[0] as nat - '0' as nat) as nat
}

/// A shape covers as many directions as the digit of its code says, in increasing order
/// from direction 0, all below six.
pub proof fn lemma_base_edges_shape(st: SegmentType)
    ensures
        spec_base_edges(st).len() == code_digit(st),
        spec_base_edges(st)[0] == 0,
        forall|i: int, k: int| 0 <= i < k < spec_base_edges(st).len() ==> #[trigger] spec_base_edges(st)[i]
            < #[trigger] spec_base_edges(st)[k],
        forall|i: int| 0 <= i < spec_base_edges(st).len() ==> #[trigger] spec_base_edges(st)[i] < 6,
{
}

/// Element counts: every segment carries at least one element; water and track
/// segments exactly one; village and forest segments carry no fewer elements when they
/// cover more edges.
pub proof fn lemma_element_counts(gt: GroupType, a: SegmentType, b: SegmentType)
    ensures
        spec_segment_element_count(gt, a) >= 1,
        gt == GroupType::Water || gt == GroupType::TrainTracks ==> spec_segment_element_count(gt, a) == 1,
        (gt == GroupType::Village || gt == GroupType::Forest) && spec_base_edges(a).len() < spec_base_edges(b).len()
            ==> spec_segment_element_count(gt, a) <= spec_segment_element_count(gt, b),
{
}

/// Turning by one step moves the edge at each direction to the next direction clockwise.
pub proof fn lemma_rotated_one_step(e: Seq<EdgeType>, d: int)
    requires
        0 <= d < 6,
    ensures
        rotated(e, 1)[(d + 1) % 6] == e[d],
        rotated(e, 1).len() == 6,
{
}

/// The number still missing for a quest and what its groups gather add up to at least
/// the shown number; nothing is missing exactly when the gathered count reaches it.
pub proof fn lemma_remaining_target(b: &Board, pos: (i32, i32))
    requires
        b.tiles().dom().contains(pos),
        b.tiles()[pos].tile is Quest,
    ensures
        ({
            let qd = b.tiles()[pos].tile->quest_data;
            let ext = spec_external_count(b, pos, spec_primary_group_type(qd.quest_type@));
            let shown = spec_remaining_display(&qd);
            let rem = spec_remaining_target(b, pos);
            &&& rem <= shown
            &&& ext <= shown ==> rem + ext == shown
            &&& rem == 0 <==> ext >= shown
        }),
{
}

/// What a board without a quest tile at a position has missing there: nothing.
pub proof fn lemma_remaining_target_no_quest(b: &Board, pos: (i32, i32))
    requires
        !(b.tiles().dom().contains(pos) && b.tiles()[pos].tile is Quest),
    ensures
        spec_remaining_target(b, pos) == 0,
{
}

/// The count handed three tiles ahead: never negative; a tile that is not a quest,
/// after one that was not either, with nothing decided, leaves it as it was; a quest
/// tile raises it by two; each decided quest lowers it by one until it reaches zero.
pub proof fn lemma_next_count(prev: i32, is_quest: bool, prev_was_quest: bool, resolved: usize)
    requires
        0 <= prev <= i32::MAX - 2,
        resolved + 1 < i32::MAX,
    ensures
        next_count(prev, is_quest, prev_was_quest, resolved) >= 0,
        next_count(prev, false, false, 0) == prev,
        next_count(prev, true, false, 0) == prev + 2,
        next_count(prev, is_quest, prev_was_quest, (resolved + 1) as usize) == (if next_count(
            prev,
            is_quest,
            prev_was_quest,
            resolved,
        ) > 0 {
            next_count(prev, is_quest, prev_was_quest, resolved) - 1
        } else {
            0
        }),
{
}

/// With no valid turn, stepping forward and then backward comes back to the current turn
/// (taken modulo six), and every step lands on a turn below six.
pub proof fn lemma_rotation_steps_without_valid(current: usize)
    requires
        current + 5 <= usize::MAX,
    ensures
        next_rotation(Seq::<usize>::empty(), next_rotation(Seq::<usize>::empty(), current, true), false) == current % 6,
        next_rotation(Seq::<usize>::empty(), next_rotation(Seq::<usize>::empty(), current, false), true) == current % 6,
        next_rotation(Seq::<usize>::empty(), current, true) < 6,
        next_rotation(Seq::<usize>::empty(), current, false) < 6,
        next_rotation(Seq::<usize>::empty(), current, true) != current % 6,
{
}


/// Whether a quest tile's segment placement `p` covers direction `j`.
pub open spec fn placement_covers(p: Placement, j: int) -> bool {
    exists|k: int| 0 <= k < spec_base_edges(p.0).len() && (#[trigger] spec_base_edges(p.0)[k] + p.3) % 6 == j
}

/// A quest tile's laid-out edges: six of them; a direction no segment covers is plain;
/// a direction the last segment covers shows that segment's edge (lake water for a
/// water segment of lake shape).
pub proof fn lemma_quest_edges(pl: Seq<Placement>, j: int)
    requires
        0 <= j < 6,
    ensures
        placements_edges(pl).len() == 6,
        (forall|i: int| 0 <= i < pl.len() ==> !placement_covers(#[trigger] pl[i], j)) ==> placements_edges(pl)[j]
            == EdgeType::Plain,
        pl.len() > 0 && placement_covers(pl.last(), j) ==> placements_edges(pl)[j] == quest_seg_edge(
            pl.last().0,
            pl.last().1,
            pl.last().2,
        ),
    decreases pl.len(),
{
    if pl.len() > 0 {
        let p = pl.last();
        lemma_quest_edges(pl.drop_last(), j);
        lemma_paint_at(placements_edges(pl.drop_last()), spec_base_edges(p.0), p.3, quest_seg_edge(p.0, p.1, p.2), j);
        if forall|i: int| 0 <= i < pl.len() ==> !placement_covers(#[trigger] pl[i], j) {
            assert forall|i: int| 0 <= i < pl.drop_last().len() implies !placement_covers(#[trigger] pl.drop_last()[i], j) by {
                assert(pl.drop_last()[i] == pl[i]);
            }
            assert(!placement_covers(pl[pl.len() - 1], j));
        }
    }
}

} // verus!
