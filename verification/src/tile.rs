//! Tiles: their six hex edges, the terrain segments painted on them, and the quest
//! tiles whose layout is read from the prefab name.
use vstd::prelude::*;
use vstd::std_specs::convert::FromSpecImpl;
use crate::game_config::{GroupType, SegmentType, spec_segment_element_count, get_segment_element_count};
use crate::text::{
    chars_of, decimal, decimal_chars, concat_chars, string_from_chars, lowercase_chars,
    spec_to_lowercase, seq_contains_sub, contains_str, chars_eq_str, trim, trim_chars, split_on,
    split_chars, views, ws_tokens, split_whitespace_chars, join_space, join_with_space, remove_pat,
    remove_all, replace_char, replace_char_chars,
};

verus! {

/// A drawn tile before its terrain is generated: an id, a display name and a seed.
#[derive(Debug, Clone)]
pub struct BaseTile {
    pub id: usize,
    pub name: String,
    pub seed: i32,
    pub is_generated: bool,
}

impl BaseTile {
    /// A fresh tile named `"<name_prefix> <id>"`.
    pub fn new(id: usize, seed: i32, name_prefix: &str) -> (r: Self)
        ensures
            r.id == id,
            r.seed == seed,
            !r.is_generated,
            r.name@ == name_prefix@ + seq![' '] + decimal(id as nat),
    {
        let mut name_chars = chars_of(name_prefix);
        name_chars.push(' ');
        let digits = decimal_chars(id);
        let all = concat_chars(&name_chars, &digits);
        BaseTile { id, name: string_from_chars(&all), seed, is_generated: false }
    }
}

/// The letter that names a terrain in segment codes.
pub open spec fn spec_letter(g: GroupType) -> char {
    match g {
        GroupType::Agriculture => 'A',
        GroupType::Forest => 'F',
        GroupType::Village => 'V',
        GroupType::TrainTracks => 'T',
        GroupType::Water => 'W',
    }
}

/// The terrain that a segment-code letter names.
pub open spec fn group_of_letter(c: char) -> Option<GroupType> {
    if c == 'A' {
        Some(GroupType::Agriculture)
    } else if c == 'F' {
        Some(GroupType::Forest)
    } else if c == 'V' {
        Some(GroupType::Village)
    } else if c == 'T' {
        Some(GroupType::TrainTracks)
    } else if c == 'W' {
        Some(GroupType::Water)
    } else {
        None
    }
}

impl GroupType {
    /// The letter of this terrain in segment codes.
    pub fn letter(&self) -> (c: char)
        ensures
            c == spec_letter(*self),
            group_of_letter(c) == Some(*self),
    {
        match self {
            GroupType::Agriculture => 'A',
            GroupType::Forest => 'F',
            GroupType::Village => 'V',
            GroupType::TrainTracks => 'T',
            GroupType::Water => 'W',
        }
    }
}

fn group_from_letter(c: char) -> (r: Option<GroupType>)
    ensures
        r == group_of_letter(c),
{
    if c == 'A' {
        Some(GroupType::Agriculture)
    } else if c == 'F' {
        Some(GroupType::Forest)
    } else if c == 'V' {
        Some(GroupType::Village)
    } else if c == 'T' {
        Some(GroupType::TrainTracks)
    } else if c == 'W' {
        Some(GroupType::Water)
    } else {
        None
    }
}

/// The kind of one hex edge of a placed tile.
#[derive(Debug, Clone, Copy, PartialEq, Eq, Hash, Structural)]
pub enum EdgeType {
    Plain,
    Agriculture,
    Forest,
    Village,
    Water,
    TrainTracks,
    FlexibleWater,
    WaterTrainStation,
}

/// The edge kind a segment of terrain `gt` shows (plain water for water).
pub open spec fn spec_edge_of_group(gt: GroupType) -> EdgeType {
    match gt {
        GroupType::Agriculture => EdgeType::Agriculture,
        GroupType::Forest => EdgeType::Forest,
        GroupType::Village => EdgeType::Village,
        GroupType::Water => EdgeType::Water,
        GroupType::TrainTracks => EdgeType::TrainTracks,
    }
}

impl From<GroupType> for EdgeType {
    fn from(gt: GroupType) -> (r: Self) {
        match gt {
            GroupType::Agriculture => EdgeType::Agriculture,
            GroupType::Forest => EdgeType::Forest,
            GroupType::Village => EdgeType::Village,
            GroupType::Water => EdgeType::Water,
            GroupType::TrainTracks => EdgeType::TrainTracks,
        }
    }
}

impl FromSpecImpl<GroupType> for EdgeType {
    open spec fn obeys_from_spec() -> bool {
        true
    }

    open spec fn from_spec(v: GroupType) -> EdgeType {
        spec_edge_of_group(v)
    }
}

/// The terrain an edge belongs to, if any: flexible water counts as water, a station
/// and a plain edge as none.
pub open spec fn spec_group_of_edge(e: EdgeType) -> Option<GroupType> {
    match e {
        EdgeType::Agriculture => Some(GroupType::Agriculture),
        EdgeType::Forest => Some(GroupType::Forest),
        EdgeType::Village => Some(GroupType::Village),
        EdgeType::Water | EdgeType::FlexibleWater => Some(GroupType::Water),
        EdgeType::TrainTracks => Some(GroupType::TrainTracks),
        EdgeType::WaterTrainStation => None,
        EdgeType::Plain => None,
    }
}

/// Placement rule: whether an edge may lie against a neighbour's edge. Hard water
/// needs water on the other side, hard tracks need tracks, and nothing but water
/// (or a station) may lie against hard water, nothing but tracks against hard tracks.
pub open spec fn spec_compatible(a: EdgeType, b: EdgeType) -> bool {
    match a {
        EdgeType::Water => b == EdgeType::Water || b == EdgeType::FlexibleWater || b == EdgeType::WaterTrainStation,
        EdgeType::TrainTracks => b == EdgeType::TrainTracks || b == EdgeType::WaterTrainStation,
        EdgeType::FlexibleWater => b != EdgeType::TrainTracks,
        EdgeType::WaterTrainStation => true,
        _ => b != EdgeType::Water && b != EdgeType::TrainTracks,
    }
}

impl EdgeType {
    /// The terrain this edge belongs to, if any.
    pub fn to_group_type(&self) -> (r: Option<GroupType>)
        ensures
            r == spec_group_of_edge(*self),
    {
        match self {
            EdgeType::Agriculture => Some(GroupType::Agriculture),
            EdgeType::Forest => Some(GroupType::Forest),
            EdgeType::Village => Some(GroupType::Village),
            EdgeType::Water | EdgeType::FlexibleWater => Some(GroupType::Water),
            EdgeType::TrainTracks => Some(GroupType::TrainTracks),
            EdgeType::WaterTrainStation => None,
            EdgeType::Plain => None,
        }
    }

    /// Whether this edge may be placed against the edge `other`.
    pub fn is_compatible_with(&self, other: EdgeType) -> (r: bool)
        ensures
            r == spec_compatible(*self, other),
    {
        match self {
            EdgeType::Water => other == EdgeType::Water || other == EdgeType::FlexibleWater
                || other == EdgeType::WaterTrainStation,
            EdgeType::TrainTracks => other == EdgeType::TrainTracks || other == EdgeType::WaterTrainStation,
            EdgeType::FlexibleWater => other != EdgeType::TrainTracks,
            EdgeType::WaterTrainStation => true,
            _ => other != EdgeType::Water && other != EdgeType::TrainTracks,
        }
    }
}

/// The six edges of a tile, indexed by direction 0..6.
#[derive(Debug, Clone, Copy)]
pub struct HexEdgeConfig {
    pub edges: [EdgeType; 6],
}

/// Six copies of `e`.
pub open spec fn all_edges(e: EdgeType) -> Seq<EdgeType> {
    seq![e, e, e, e, e, e]
}

/// `edges` turned clockwise by `steps` directions: what was at direction `d` is now at
/// direction `(d + steps) % 6`.
pub open spec fn rotated(edges: Seq<EdgeType>, steps: nat) -> Seq<EdgeType> {
    Seq::new(6, |j: int| edges[(j + 6 - (steps % 6)) % 6])
}

impl HexEdgeConfig {
    /// A configuration with the given edges.
    pub fn new(edges: [EdgeType; 6]) -> (r: Self)
        ensures
            r.edges@ == edges@,
    {
        Self { edges }
    }

    /// Six plain edges.
    pub fn plain() -> (r: Self)
        ensures
            r.edges@ == all_edges(EdgeType::Plain),
    {
        let r = Self { edges: [EdgeType::Plain; 6] };
        assert(r.edges@ =~= all_edges(EdgeType::Plain));
        r
    }

    /// The edge that faces world direction `world_dir` once the tile is turned by
    /// `rotation_index` steps.
    pub fn edge_at(&self, world_dir: usize, rotation_index: usize) -> (r: EdgeType)
        requires
            world_dir + 6 <= usize::MAX,
        ensures
            r == self.edges@[(world_dir + 6 - (rotation_index % 6)) % 6],
    {
        let local_dir = (world_dir + 6 - (rotation_index % 6)) % 6;
        self.edges[local_dir]
    }

    /// Turns the tile clockwise by `steps` directions.
    pub fn rotate(&mut self, steps: usize)
        ensures
            final(self).edges@ == rotated(old(self).edges@, steps as nat),
    {
        let steps = steps % 6;
        let ghost old_edges = self.edges@;
        if steps == 0 {
            assert(self.edges@ =~= rotated(old_edges, 0));
            return;
        }
        let mut out = [EdgeType::Plain; 6];
        let mut j: usize = 0;
        while j < 6
            invariant
                1 <= steps < 6,
                self.edges@ == old_edges,
                j <= 6,
                forall|k: int| 0 <= k < j ==> out@[k] == old_edges[(k + 6 - steps) % 6],
            decreases 6 - j,
        {
            out[j] = self.edges[(j + 6 - steps) % 6];
            j += 1;
        }
        self.edges = out;
        assert(self.edges@ =~= rotated(old_edges, steps as nat));
    }
}

/// The directions a segment of shape `st` covers before it is turned.
pub open spec fn spec_base_edges(st: SegmentType) -> Seq<usize> {
    match st {
        SegmentType::ST1A => seq![0],
        SegmentType::ST2A => seq![0, 1],
        SegmentType::ST2B => seq![0, 2],
        SegmentType::ST2C => seq![0, 3],
        SegmentType::ST3A => seq![0, 1, 2],
        SegmentType::ST3B => seq![0, 1, 3],
        SegmentType::ST3C => seq![0, 1, 4],
        SegmentType::ST3D => seq![0, 2, 4],
        SegmentType::ST4A => seq![0, 1, 2, 3],
        SegmentType::ST4B => seq![0, 1, 2, 4],
        SegmentType::ST4C => seq![0, 1, 3, 4],
        SegmentType::ST5A => seq![0, 1, 2, 3, 4],
        SegmentType::ST6A => seq![0, 1, 2, 3, 4, 5],
    }
}

/// The shape of a segment read from its two-character code, such as `"3B"`.
pub open spec fn shape_of(s: Seq<char>) -> Option<SegmentType> {
    if s == seq!['1', 'A'] {
        Some(SegmentType::ST1A)
    } else if s == seq!['2', 'A'] {
        Some(SegmentType::ST2A)
    } else if s == seq!['2', 'B'] {
        Some(SegmentType::ST2B)
    } else if s == seq!['2', 'C'] {
        Some(SegmentType::ST2C)
    } else if s == seq!['3', 'A'] {
        Some(SegmentType::ST3A)
    } else if s == seq!['3', 'B'] {
        Some(SegmentType::ST3B)
    } else if s == seq!['3', 'C'] {
        Some(SegmentType::ST3C)
    } else if s == seq!['3', 'D'] {
        Some(SegmentType::ST3D)
    } else if s == seq!['4', 'A'] {
        Some(SegmentType::ST4A)
    } else if s == seq!['4', 'B'] {
        Some(SegmentType::ST4B)
    } else if s == seq!['4', 'C'] {
        Some(SegmentType::ST4C)
    } else if s == seq!['5', 'A'] {
        Some(SegmentType::ST5A)
    } else if s == seq!['6', 'A'] {
        Some(SegmentType::ST6A)
    } else {
        None
    }
}

/// The two-character code of a shape (inverse of `shape_of`).
pub open spec fn spec_shape_code(st: SegmentType) -> Seq<char> {
    match st {
        SegmentType::ST1A => seq!['1', 'A'],
        SegmentType::ST2A => seq!['2', 'A'],
        SegmentType::ST2B => seq!['2', 'B'],
        SegmentType::ST2C => seq!['2', 'C'],
        SegmentType::ST3A => seq!['3', 'A'],
        SegmentType::ST3B => seq!['3', 'B'],
        SegmentType::ST3C => seq!['3', 'C'],
        SegmentType::ST3D => seq!['3', 'D'],
        SegmentType::ST4A => seq!['4', 'A'],
        SegmentType::ST4B => seq!['4', 'B'],
        SegmentType::ST4C => seq!['4', 'C'],
        SegmentType::ST5A => seq!['5', 'A'],
        SegmentType::ST6A => seq!['6', 'A'],
    }
}

/// Lake shapes (2A, 3A, 4A, 5A, 6A): water on them is flexible water.
pub open spec fn spec_is_lake_shape(st: SegmentType) -> bool {
    st == SegmentType::ST2A || st == SegmentType::ST3A || st == SegmentType::ST4A
        || st == SegmentType::ST5A || st == SegmentType::ST6A
}

/// The shape read from a two-character code.
pub fn shape_from_chars(s: &Vec<char>) -> (r: Option<SegmentType>)
    ensures
        r == shape_of(s@),
{
    if s.len() != 2 {
        proof {
            assert(s@ != seq!['1', 'A'] && s@ != seq!['2', 'A'] && s@ != seq!['2', 'B']);
        }
        return None;
    }
    let a = s[0];
    let b = s[1];
    let r = if a == '1' && b == 'A' {
        Some(SegmentType::ST1A)
    } else if a == '2' && b == 'A' {
        Some(SegmentType::ST2A)
    } else if a == '2' && b == 'B' {
        Some(SegmentType::ST2B)
    } else if a == '2' && b == 'C' {
        Some(SegmentType::ST2C)
    } else if a == '3' && b == 'A' {
        Some(SegmentType::ST3A)
    } else if a == '3' && b == 'B' {
        Some(SegmentType::ST3B)
    } else if a == '3' && b == 'C' {
        Some(SegmentType::ST3C)
    } else if a == '3' && b == 'D' {
        Some(SegmentType::ST3D)
    } else if a == '4' && b == 'A' {
        Some(SegmentType::ST4A)
    } else if a == '4' && b == 'B' {
        Some(SegmentType::ST4B)
    } else if a == '4' && b == 'C' {
        Some(SegmentType::ST4C)
    } else if a == '5' && b == 'A' {
        Some(SegmentType::ST5A)
    } else if a == '6' && b == 'A' {
        Some(SegmentType::ST6A)
    } else {
        None
    };
    proof {
        assert(s@ =~= seq![a, b]);
    }
    r
}

impl SegmentType {
    /// Whether this is a lake shape.
    pub fn is_lake_shape(&self) -> (r: bool)
        ensures
            r == spec_is_lake_shape(*self),
    {
        match self {
            SegmentType::ST2A | SegmentType::ST3A | SegmentType::ST4A | SegmentType::ST5A
            | SegmentType::ST6A => true,
            _ => false,
        }
    }

    /// The two-character code of this shape.
    pub fn shape_code(&self) -> (r: &'static str)
        ensures
            r@ == spec_shape_code(*self),
    {
        match self {
            SegmentType::ST1A => { proof { reveal_strlit("1A"); } "1A" },
            SegmentType::ST2A => { proof { reveal_strlit("2A"); } "2A" },
            SegmentType::ST2B => { proof { reveal_strlit("2B"); } "2B" },
            SegmentType::ST2C => { proof { reveal_strlit("2C"); } "2C" },
            SegmentType::ST3A => { proof { reveal_strlit("3A"); } "3A" },
            SegmentType::ST3B => { proof { reveal_strlit("3B"); } "3B" },
            SegmentType::ST3C => { proof { reveal_strlit("3C"); } "3C" },
            SegmentType::ST3D => { proof { reveal_strlit("3D"); } "3D" },
            SegmentType::ST4A => { proof { reveal_strlit("4A"); } "4A" },
            SegmentType::ST4B => { proof { reveal_strlit("4B"); } "4B" },
            SegmentType::ST4C => { proof { reveal_strlit("4C"); } "4C" },
            SegmentType::ST5A => { proof { reveal_strlit("5A"); } "5A" },
            SegmentType::ST6A => { proof { reveal_strlit("6A"); } "6A" },
        }
    }

    /// How many edges this shape covers.
    pub fn edge_count(&self) -> (r: usize)
        ensures
            r == spec_base_edges(*self).len(),
    {
        match self {
            SegmentType::ST1A => 1,
            SegmentType::ST2A | SegmentType::ST2B | SegmentType::ST2C => 2,
            SegmentType::ST3A | SegmentType::ST3B | SegmentType::ST3C | SegmentType::ST3D => 3,
            SegmentType::ST4A | SegmentType::ST4B | SegmentType::ST4C => 4,
            SegmentType::ST5A => 5,
            SegmentType::ST6A => 6,
        }
    }

    /// The directions this shape covers before it is turned.
    pub fn base_edges(&self) -> (r: &'static [usize])
        ensures
            r@ == spec_base_edges(*self),
            forall|i: int| 0 <= i < r@.len() ==> r@[i] < 6,
    {
        match self {
            SegmentType::ST1A => {
                let e: &'static [usize] = &[0];
                assert(e@ =~= seq![0]);
                e
            },
            SegmentType::ST2A => {
                let e: &'static [usize] = &[0, 1];
                assert(e@ =~= seq![0, 1]);
                e
            },
            SegmentType::ST2B => {
                let e: &'static [usize] = &[0, 2];
                assert(e@ =~= seq![0, 2]);
                e
            },
            SegmentType::ST2C => {
                let e: &'static [usize] = &[0, 3];
                assert(e@ =~= seq![0, 3]);
                e
            },
            SegmentType::ST3A => {
                let e: &'static [usize] = &[0, 1, 2];
                assert(e@ =~= seq![0, 1, 2]);
                e
            },
            SegmentType::ST3B => {
                let e: &'static [usize] = &[0, 1, 3];
                assert(e@ =~= seq![0, 1, 3]);
                e
            },
            SegmentType::ST3C => {
                let e: &'static [usize] = &[0, 1, 4];
                assert(e@ =~= seq![0, 1, 4]);
                e
            },
            SegmentType::ST3D => {
                let e: &'static [usize] = &[0, 2, 4];
                assert(e@ =~= seq![0, 2, 4]);
                e
            },
            SegmentType::ST4A => {
                let e: &'static [usize] = &[0, 1, 2, 3];
                assert(e@ =~= seq![0, 1, 2, 3]);
                e
            },
            SegmentType::ST4B => {
                let e: &'static [usize] = &[0, 1, 2, 4];
                assert(e@ =~= seq![0, 1, 2, 4]);
                e
            },
            SegmentType::ST4C => {
                let e: &'static [usize] = &[0, 1, 3, 4];
                assert(e@ =~= seq![0, 1, 3, 4]);
                e
            },
            SegmentType::ST5A => {
                let e: &'static [usize] = &[0, 1, 2, 3, 4];
                assert(e@ =~= seq![0, 1, 2, 3, 4]);
                e
            },
            SegmentType::ST6A => {
                let e: &'static [usize] = &[0, 1, 2, 3, 4, 5];
                assert(e@ =~= seq![0, 1, 2, 3, 4, 5]);
                e
            },
        }
    }
}

/// One terrain segment painted on a normal tile: its shape, terrain and turn.
#[derive(Debug, Clone)]
pub struct SegmentData {
    pub index: usize,
    pub group_type: GroupType,
    pub segment_type: SegmentType,
    pub occupied_edges: Vec<usize>,
    pub rotation: usize,
    pub is_hybrid: bool,
}

impl SegmentData {
    /// The code of this segment: its shape code followed by its terrain letter, such as `"3AV"`.
    pub fn config_code(&self) -> (r: String)
        ensures
            r@ == spec_shape_code(self.segment_type).push(spec_letter(self.group_type)),
    {
        let mut cs = chars_of(self.segment_type.shape_code());
        cs.push(self.group_type.letter());
        string_from_chars(&cs)
    }
}

/// How a quest compares the collected count with its target.
#[derive(Debug, Clone, Copy, PartialEq, Eq, Structural)]
pub enum EqualityComparison {
    MoreThan,
    Exactly,
}

/// The data of a quest tile; its terrain layout is read from the prefab name `quest_type`.
#[derive(Debug, Clone)]
pub struct QuestTileData {
    pub seed: i32,
    pub quest_type: String,
    pub target_count: usize,
    pub equality: EqualityComparison,
    pub level: usize,
    pub quest_id: Option<usize>,
    pub stack_quest_id: Option<usize>,
}

/// Whether `c` is one of '0'..='9'.
pub open spec fn is_ascii_digit(c: char) -> bool {
    '0' <= c && c <= '9'
}

/// Whether a name part is a segment code: it mentions "hybrid" in any case, or it has
/// at least two characters, starts with a digit and ends with a terrain letter.
pub open spec fn spec_is_segment_code(s: Seq<char>) -> bool {
    spec_is_segment_code_from(s, spec_to_lowercase(s))
}

/// Whether a name part `s`, whose lowercase is `lower`, is a segment code: `lower`
/// mentions "hybrid", or `s` has at least two characters, starts with a digit and ends
/// with a terrain letter.
pub open spec fn spec_is_segment_code_from(s: Seq<char>, lower: Seq<char>) -> bool {
    seq_contains_sub(lower, "hybrid"@) || (s.len() >= 2 && group_of_letter(s.last()) is Some && is_ascii_digit(s[0]))
}

fn is_segment_code(s: &Vec<char>) -> (r: bool)
    ensures
        r == spec_is_segment_code(s@),
{
    let lower = lowercase_chars(s);
    is_segment_code_from(s, &lower)
}

/// Whether the name part `s`, given its lowercase `lower`, is a segment code.
pub fn is_segment_code_from(s: &Vec<char>, lower: &Vec<char>) -> (r: bool)
    ensures
        r == spec_is_segment_code_from(s@, lower@),
{
    if contains_str(lower, "hybrid") {
        return true;
    }
    let len = s.len();
    if len < 2 {
        return false;
    }
    let last = s[len - 1];
    if group_from_letter(last).is_none() {
        return false;
    }
    let first = s[0];
    '0' <= first && first <= '9'
}

/// Name parts that carry no segment code.
pub open spec fn is_skipped_part(part: Seq<char>) -> bool {
    part.len() == 0 || part == "QuestTile"@ || part == "Train"@ || part == "WaterTrainStation"@
}

/// The segment codes found in the name parts from index `i` on: a trimmed part that is
/// a segment code, or a part joined by '_' with the next part when that next part
/// mentions "hybrid" and the joined text is a segment code.
pub open spec fn config_codes_from(parts: Seq<Seq<char>>, i: int) -> Seq<Seq<char>>
    decreases parts.len() - i,
{
    if i < 0 || i >= parts.len() {
        Seq::<Seq<char>>::empty()
    } else {
        let part = trim(parts[i]);
        if is_skipped_part(part) {
            config_codes_from(parts, i + 1)
        } else if i + 1 < parts.len() && seq_contains_sub(spec_to_lowercase(parts[i + 1]), "hybrid"@)
            && spec_is_segment_code(part + seq!['_'] + parts[i + 1]) {
            seq![part + seq!['_'] + parts[i + 1]] + config_codes_from(parts, i + 2)
        } else if spec_is_segment_code(part) {
            seq![part] + config_codes_from(parts, i + 1)
        } else {
            config_codes_from(parts, i + 1)
        }
    }
}

/// The segment codes of a quest prefab name, whose parts are separated by '_' or '-'.
pub open spec fn spec_config_codes(name: Seq<char>) -> Seq<Seq<char>> {
    config_codes_from(split_on(replace_char(name, '-', '_'), '_'), 0)
}

/// The terrain description of a quest prefab name: its segment codes joined by spaces,
/// or the whole name when it holds none.
pub open spec fn spec_config_string(name: Seq<char>) -> Seq<char> {
    let codes = spec_config_codes(name);
    if codes.len() > 0 {
        join_space(codes)
    } else {
        name
    }
}

/// The white-space separated tokens of the terrain description of a quest name.
pub open spec fn spec_config_tokens(name: Seq<char>) -> Seq<Seq<char>> {
    ws_tokens(spec_config_string(name))
}

fn config_codes_chars(name: &Vec<char>) -> (r: Vec<Vec<char>>)
    ensures
        views(r@) == spec_config_codes(name@),
{
    let clean = replace_char_chars(name, '-', '_');
    let parts = split_chars(&clean, '_');
    let ghost ps = views(parts@);
    let mut codes: Vec<Vec<char>> = Vec::new();
    let mut i: usize = 0;
    assert(views(codes@) + config_codes_from(ps, 0) =~= config_codes_from(ps, 0));
    while i < parts.len()
        invariant
            ps == views(parts@),
            ps.len() == parts@.len(),
            i <= parts.len(),
            views(codes@) + config_codes_from(ps, i as int) == config_codes_from(ps, 0),
        decreases parts.len() - i,
    {
        let part = trim_chars(&parts[i]);
        assert(ps[i as int] == parts@[i as int]@);
        let skipped = part.len() == 0 || chars_eq_str(&part, "QuestTile") || chars_eq_str(&part, "Train")
            || chars_eq_str(&part, "WaterTrainStation");
        if skipped {
            i += 1;
            continue;
        }
        if i + 1 < parts.len() {
            assert(ps[i + 1] == parts@[i + 1]@);
            let next_lower = lowercase_chars(&parts[i + 1]);
            if contains_str(&next_lower, "hybrid") {
                let under: Vec<char> = vec!['_'];
                assert(under@ =~= seq!['_']);
                let joined = concat_chars(&part, &under);
                let combined = concat_chars(&joined, &parts[i + 1]);
                if is_segment_code(&combined) {
                    let ghost before = views(codes@);
                    codes.push(combined);
                    assert(views(codes@) =~= before.push(combined@));
                    assert(before.push(combined@) + config_codes_from(ps, i + 2) =~= before + (seq![combined@] + config_codes_from(ps, i + 2)));
                    i += 2;
                    continue;
                }
            }
        }
        if is_segment_code(&part) {
            let ghost before = views(codes@);
            codes.push(part);
            assert(views(codes@) =~= before.push(part@));
            assert(before.push(part@) + config_codes_from(ps, i + 1) =~= before + (seq![part@] + config_codes_from(ps, i + 1)));
        }
        i += 1;
    }
    assert(config_codes_from(ps, i as int) =~= Seq::<Seq<char>>::empty());
    assert(views(codes@) + Seq::<Seq<char>>::empty() =~= views(codes@));
    codes
}

fn config_chars(name: &Vec<char>) -> (r: Vec<char>)
    ensures
        r@ == spec_config_string(name@),
{
    let codes = config_codes_chars(name);
    if codes.len() > 0 {
        join_with_space(&codes)
    } else {
        name.clone()
    }
}

/// The terrain read from a segment code's last character, after removing every
/// "Hybrid", "hybrid" and '_' and taking the shape from what is left before that
/// character (less one leading 'h' or 'H').
pub open spec fn spec_parse_segment_code(code: Seq<char>) -> Option<(SegmentType, GroupType, bool)> {
    spec_parse_segment_from(code, spec_to_lowercase(code))
}

/// What a segment code `code` whose lowercase is `lower` reads as: the terrain from its
/// last character after removing every "Hybrid", "hybrid" and '_', the shape from what
/// is left before it (less one leading 'h' or 'H'), and a hybrid flag when `lower`
/// mentions "hybrid" or the segment is a full-tile water segment.
pub open spec fn spec_parse_segment_from(code: Seq<char>, lower: Seq<char>) -> Option<(SegmentType, GroupType, bool)> {
    if code.len() == 0 {
        None
    } else {
        let explicit = seq_contains_sub(lower, "hybrid"@);
        let cleaned = remove_pat(remove_pat(remove_pat(code, "Hybrid"@), "hybrid"@), seq!['_']);
        if cleaned.len() == 0 {
            None
        } else {
            match group_of_letter(cleaned.last()) {
                None => None,
                Some(gt) => {
                    let body = cleaned.drop_last();
                    let shape_str = if body.len() > 0 && (body[0] == 'h' || body[0] == 'H') {
                        body.drop_first()
                    } else {
                        body
                    };
                    match shape_of(shape_str) {
                        None => None,
                        Some(st) => Some(
                            (st, gt, explicit || (gt == GroupType::Water && st == SegmentType::ST6A)),
                        ),
                    }
                },
            }
        }
    }
}

fn parse_segment_chars(code: &Vec<char>) -> (r: Option<(SegmentType, GroupType, bool)>)
    ensures
        r == spec_parse_segment_code(code@),
{
    let lower = lowercase_chars(code);
    parse_segment_code_from(code, &lower)
}

/// Reads the segment code `code`, given its lowercase `lower`.
pub fn parse_segment_code_from(code: &Vec<char>, lower: &Vec<char>) -> (r: Option<(SegmentType, GroupType, bool)>)
    ensures
        r == spec_parse_segment_from(code@, lower@),
{
    if code.len() == 0 {
        return None;
    }
    let is_hybrid_explicit = contains_str(lower, "hybrid");
    let pat1 = chars_of("Hybrid");
    let pat2 = chars_of("hybrid");
    proof {
        reveal_strlit("Hybrid");
        reveal_strlit("hybrid");
    }
    let under: Vec<char> = vec!['_'];
    assert(under@ =~= seq!['_']);
    let c1 = remove_all(code, &pat1);
    let c2 = remove_all(&c1, &pat2);
    let mut cleaned = remove_all(&c2, &under);
    if cleaned.len() == 0 {
        return None;
    }
    let group_char = cleaned[cleaned.len() - 1];
    let group_type = match group_from_letter(group_char) {
        Some(g) => g,
        None => return None,
    };
    let ghost full = cleaned@;
    cleaned.pop();
    assert(cleaned@ =~= full.drop_last());
    let shape_str = if cleaned.len() > 0 && (cleaned[0] == 'h' || cleaned[0] == 'H') {
        let mut rest: Vec<char> = Vec::new();
        let mut k: usize = 1;
        while k < cleaned.len()
            invariant
                1 <= k <= cleaned.len(),
                rest@ == cleaned@.subrange(1, k as int),
            decreases cleaned.len() - k,
        {
            rest.push(cleaned[k]);
            k += 1;
            assert(rest@ =~= cleaned@.subrange(1, k as int));
        }
        assert(rest@ =~= cleaned@.drop_first());
        rest
    } else {
        cleaned
    };
    match shape_from_chars(&shape_str) {
        None => None,
        Some(seg_type) => {
            let is_hybrid = is_hybrid_explicit || (group_type == GroupType::Water && seg_type
                == SegmentType::ST6A);
            Some((seg_type, group_type, is_hybrid))
        },
    }
}

/// Reads a segment code such as `"3AV"`, `"h2BW"` or `"4A_HybridW"`: its shape, terrain
/// and whether it is a hybrid (explicitly, or a full-tile water segment).
pub fn parse_segment_code(code: &str) -> (r: Option<(SegmentType, GroupType, bool)>)
    ensures
        r == spec_parse_segment_code(code@),
{
    let cs = chars_of(code);
    parse_segment_chars(&cs)
}

/// The terrain of the first token that parses as a segment code, or agriculture.
pub open spec fn first_parsed_group(tokens: Seq<Seq<char>>) -> GroupType
    decreases tokens.len(),
{
    if tokens.len() == 0 {
        GroupType::Agriculture
    } else {
        match spec_parse_segment_code(tokens[0]) {
            Some(p) => p.1,
            None => first_parsed_group(tokens.drop_first()),
        }
    }
}

/// The main terrain of a quest: the first of village, forest, agriculture, water, train
/// that its lowercased name mentions, else the terrain of its first segment code.
pub open spec fn spec_primary_group_type(name: Seq<char>) -> GroupType {
    spec_primary_from(name, spec_to_lowercase(name))
}

/// The main terrain of a quest named `name` whose lowercase is `l`: the first of
/// village, forest, agriculture, water, train that `l` mentions, else the terrain of the
/// first segment code of `name`.
pub open spec fn spec_primary_from(name: Seq<char>, l: Seq<char>) -> GroupType {
    if seq_contains_sub(l, "village"@) {
        GroupType::Village
    } else if seq_contains_sub(l, "forest"@) {
        GroupType::Forest
    } else if seq_contains_sub(l, "agriculture"@) {
        GroupType::Agriculture
    } else if seq_contains_sub(l, "water"@) {
        GroupType::Water
    } else if seq_contains_sub(l, "train"@) {
        GroupType::TrainTracks
    } else {
        first_parsed_group(spec_config_tokens(name))
    }
}

/// The elements of terrain `gt` over the tokens that parse as segment codes.
pub open spec fn tokens_elements(tokens: Seq<Seq<char>>, gt: GroupType) -> nat
    decreases tokens.len(),
{
    if tokens.len() == 0 {
        0
    } else {
        tokens_elements(tokens.drop_last(), gt) + match spec_parse_segment_code(tokens.last()) {
            Some(p) => if p.1 == gt {
                spec_segment_element_count(gt, p.0)
            } else {
                0
            },
            None => 0,
        }
    }
}

/// The elements of terrain `gt` on a quest tile: the sum over its segment codes, or,
/// when that sum is zero, one element if `gt` is the quest's main terrain.
pub open spec fn spec_own_elements_for_group(name: Seq<char>, gt: GroupType) -> nat {
    let total = tokens_elements(spec_config_tokens(name), gt);
    if total == 0 {
        if spec_primary_group_type(name) == gt {
            1
        } else {
            0
        }
    } else {
        total
    }
}

/// The quest name's element sums fit in a `usize` for every terrain.
pub open spec fn quest_name_fits(name: Seq<char>) -> bool {
    forall|gt: GroupType| #[trigger] tokens_elements(spec_config_tokens(name), gt) <= usize::MAX
}

fn first_group_of_tokens(tokens: &Vec<Vec<char>>) -> (r: GroupType)
    ensures
        r == first_parsed_group(views(tokens@)),
{
    let mut i: usize = 0;
    assert(views(tokens@).skip(0) =~= views(tokens@));
    while i < tokens.len()
        invariant
            i <= tokens.len(),
            first_parsed_group(views(tokens@)) == first_parsed_group(views(tokens@).skip(i as int)),
        decreases tokens.len() - i,
    {
        assert(views(tokens@).skip(i as int)[0] == tokens@[i as int]@);
        match parse_segment_chars(&tokens[i]) {
            Some(p) => {
                return p.1;
            },
            None => {},
        }
        assert(views(tokens@).skip(i as int).drop_first() =~= views(tokens@).skip(i + 1));
        i += 1;
    }
    assert(views(tokens@).skip(i as int) =~= Seq::<Seq<char>>::empty());
    GroupType::Agriculture
}

fn primary_group_of_name(name: &Vec<char>) -> (r: GroupType)
    ensures
        r == spec_primary_group_type(name@),
{
    let l = lowercase_chars(name);
    primary_group_from(name, &l)
}

/// The main terrain of a quest named `name`, given the name's lowercase `l`.
pub fn primary_group_from(name: &Vec<char>, l: &Vec<char>) -> (r: GroupType)
    ensures
        r == spec_primary_from(name@, l@),
{
    if contains_str(l, "village") {
        GroupType::Village
    } else if contains_str(l, "forest") {
        GroupType::Forest
    } else if contains_str(l, "agriculture") {
        GroupType::Agriculture
    } else if contains_str(l, "water") {
        GroupType::Water
    } else if contains_str(l, "train") {
        GroupType::TrainTracks
    } else {
        let cfg = config_chars(name);
        let tokens = split_whitespace_chars(&cfg);
        first_group_of_tokens(&tokens)
    }
}

fn elements_of_tokens(tokens: &Vec<Vec<char>>, gt: GroupType) -> (r: usize)
    requires
        tokens_elements(views(tokens@), gt) <= usize::MAX,
    ensures
        r == tokens_elements(views(tokens@), gt),
{
    let mut total: usize = 0;
    let mut i: usize = 0;
    assert(views(tokens@).take(0) =~= Seq::<Seq<char>>::empty());
    while i < tokens.len()
        invariant
            i <= tokens.len(),
            total == tokens_elements(views(tokens@).take(i as int), gt),
            tokens_elements(views(tokens@), gt) <= usize::MAX,
        decreases tokens.len() - i,
    {
        proof {
            assert(views(tokens@).take(i + 1).drop_last() =~= views(tokens@).take(i as int));
            assert(views(tokens@).take(i + 1).last() == tokens@[i as int]@);
            lemma_tokens_elements_prefix(views(tokens@), gt, i + 1);
        }
        match parse_segment_chars(&tokens[i]) {
            Some(p) => {
                if p.1 == gt {
                    total = total + get_segment_element_count(gt, p.0);
                }
            },
            None => {},
        }
        i += 1;
    }
    assert(views(tokens@).take(tokens@.len() as int) =~= views(tokens@));
    total
}

/// A prefix of the tokens never has more elements than all of them.
pub proof fn lemma_tokens_elements_prefix(tokens: Seq<Seq<char>>, gt: GroupType, k: int)
    requires
        0 <= k <= tokens.len(),
    ensures
        tokens_elements(tokens.take(k), gt) <= tokens_elements(tokens, gt),
    decreases tokens.len(),
{
    if k < tokens.len() {
        assert(tokens.drop_last().take(k) =~= tokens.take(k));
        lemma_tokens_elements_prefix(tokens.drop_last(), gt, k);
    } else {
        assert(tokens.take(k) =~= tokens);
    }
}

fn own_elements_of_name(name: &Vec<char>, gt: GroupType) -> (r: usize)
    requires
        quest_name_fits(name@),
    ensures
        r == spec_own_elements_for_group(name@, gt),
{
    let cfg = config_chars(name);
    let tokens = split_whitespace_chars(&cfg);
    assert(tokens_elements(spec_config_tokens(name@), gt) <= usize::MAX);
    let total = elements_of_tokens(&tokens, gt);
    if total == 0 {
        if primary_group_of_name(name) == gt {
            1
        } else {
            0
        }
    } else {
        total
    }
}

fn elements_fit(tokens: &Vec<Vec<char>>, gt: GroupType) -> (r: bool)
    ensures
        r == (tokens_elements(views(tokens@), gt) <= usize::MAX),
{
    let mut total: usize = 0;
    let mut i: usize = 0;
    assert(views(tokens@).take(0) =~= Seq::<Seq<char>>::empty());
    while i < tokens.len()
        invariant
            i <= tokens.len(),
            total == tokens_elements(views(tokens@).take(i as int), gt),
        decreases tokens.len() - i,
    {
        proof {
            assert(views(tokens@).take(i + 1).drop_last() =~= views(tokens@).take(i as int));
            assert(views(tokens@).take(i + 1).last() == tokens@[i as int]@);
            lemma_tokens_elements_prefix(views(tokens@), gt, i + 1);
        }
        match parse_segment_chars(&tokens[i]) {
            Some(p) => {
                if p.1 == gt {
                    let c = get_segment_element_count(gt, p.0);
                    if total > usize::MAX - c {
                        return false;
                    }
                    total = total + c;
                }
            },
            None => {},
        }
        i += 1;
    }
    assert(views(tokens@).take(tokens@.len() as int) =~= views(tokens@));
    true
}

/// Whether the element sums of the quest prefab name `name` fit in a `usize` for every
/// terrain, as the quest tile's computations need.
pub fn quest_name_fits_check(name: &str) -> (r: bool)
    ensures
        r == quest_name_fits(name@),
{
    let cs = chars_of(name);
    let cfg = config_chars(&cs);
    let tokens = split_whitespace_chars(&cfg);
    let ghost toks = spec_config_tokens(name@);
    assert(views(tokens@) == toks);
    let v = elements_fit(&tokens, GroupType::Village);
    let f = elements_fit(&tokens, GroupType::Forest);
    let a = elements_fit(&tokens, GroupType::Agriculture);
    let t = elements_fit(&tokens, GroupType::TrainTracks);
    let w = elements_fit(&tokens, GroupType::Water);
    proof {
        if v && f && a && t && w {
            assert forall|gt: GroupType| #[trigger] tokens_elements(toks, gt) <= usize::MAX by {
                match gt {
                    GroupType::Village => {},
                    GroupType::Forest => {},
                    GroupType::Agriculture => {},
                    GroupType::TrainTracks => {},
                    GroupType::Water => {},
                }
            }
        }
    }
    v && f && a && t && w
}

impl QuestTileData {
    /// The terrain description of this quest, read from its prefab name (for example
    /// `"QuestTile_Water_4A_HybridW_2AF"` gives `"4A_HybridW 2AF"`).
    pub fn config_string(&self) -> (r: String)
        ensures
            r@ == spec_config_string(self.quest_type@),
    {
        let name = chars_of(self.quest_type.as_str());
        let cfg = config_chars(&name);
        string_from_chars(&cfg)
    }

    /// The main terrain of this quest.
    pub fn primary_group_type(&self) -> (r: GroupType)
        ensures
            r == spec_primary_group_type(self.quest_type@),
    {
        let name = chars_of(self.quest_type.as_str());
        primary_group_of_name(&name)
    }

    /// The elements of this quest tile's main terrain.
    pub fn own_elements(&self) -> (r: usize)
        requires
            quest_name_fits(self.quest_type@),
        ensures
            r == spec_own_elements_for_group(self.quest_type@, spec_primary_group_type(self.quest_type@)),
    {
        let g = self.primary_group_type();
        self.own_elements_for_group(g)
    }

    /// The elements of terrain `gt` on this quest tile.
    pub fn own_elements_for_group(&self, gt: GroupType) -> (r: usize)
        requires
            quest_name_fits(self.quest_type@),
        ensures
            r == spec_own_elements_for_group(self.quest_type@, gt),
    {
        let name = chars_of(self.quest_type.as_str());
        own_elements_of_name(&name, gt)
    }

    /// The number shown on the quest bubble: the target less the tile's own elements of
    /// its main terrain, and zero when the tile alone reaches the target.
    pub fn remaining_display_value(&self) -> (r: usize)
        requires
            quest_name_fits(self.quest_type@),
        ensures
            r == spec_remaining_display(self),
    {
        let own = self.own_elements();
        if self.target_count > own {
            self.target_count - own
        } else {
            0
        }
    }
}

/// The number shown on a quest bubble before anything is connected.
pub open spec fn spec_remaining_display(q: &QuestTileData) -> nat {
    let own = spec_own_elements_for_group(q.quest_type@, spec_primary_group_type(q.quest_type@));
    if q.target_count > own {
        (q.target_count - own) as nat
    } else {
        0
    }
}

/// A finished tile: a normal tile with its segments, a quest tile, or a reward station.
#[derive(Debug, Clone)]
pub enum GeneratedTile {
    Normal { base_tile: BaseTile, segments: Vec<SegmentData> },
    Quest { base_tile: BaseTile, quest_data: QuestTileData },
    Reward { base_tile: BaseTile },
}

/// One terrain segment of a placed tile, with the world directions it covers.
#[derive(Debug, Clone)]
pub struct TileSegmentData {
    pub group_type: GroupType,
    pub segment_type: SegmentType,
    pub element_count: usize,
    pub edges: Vec<usize>,
}

/// A segment as plain values: terrain, shape, element count and covered directions.
pub type SegModel = (GroupType, SegmentType, nat, Seq<usize>);

/// The plain-value model of a tile segment.
pub open spec fn seg_model(t: TileSegmentData) -> SegModel {
    (t.group_type, t.segment_type, t.element_count as nat, t.edges@)
}

/// `s` with the entries at directions `(base[k] + rot) % 6` set to `v`, in the order of `base`.
pub open spec fn paint<T>(s: Seq<T>, base: Seq<usize>, rot: nat, v: T) -> Seq<T>
    decreases base.len(),
{
    if base.len() == 0 {
        s
    } else {
        paint(s, base.drop_last(), rot, v).update(((base.last() + rot) % 6) as int, v)
    }
}

/// Painting keeps the length of a six-entry list.
pub proof fn lemma_paint_len<T>(s: Seq<T>, base: Seq<usize>, rot: nat, v: T)
    requires
        s.len() == 6,
    ensures
        paint(s, base, rot, v).len() == s.len(),
    decreases base.len(),
{
    if base.len() > 0 {
        lemma_paint_len(s, base.drop_last(), rot, v);
    }
}

/// The edge kind a segment of a normal tile shows: water on a full-tile or hybrid
/// segment is flexible water.
pub open spec fn normal_seg_edge(seg: SegmentData) -> EdgeType {
    if seg.group_type == GroupType::Water {
        if seg.segment_type == SegmentType::ST6A || seg.is_hybrid {
            EdgeType::FlexibleWater
        } else {
            EdgeType::Water
        }
    } else {
        spec_edge_of_group(seg.group_type)
    }
}

/// The edges of a normal tile: plain, then each segment painted in order.
pub open spec fn normal_edges(segs: Seq<SegmentData>) -> Seq<EdgeType>
    decreases segs.len(),
{
    if segs.len() == 0 {
        all_edges(EdgeType::Plain)
    } else {
        let seg = segs.last();
        paint(normal_edges(segs.drop_last()), spec_base_edges(seg.segment_type), seg.rotation as nat,
            normal_seg_edge(seg))
    }
}

/// Whether a shape turned by `rot` covers only free directions.
pub open spec fn fits_at(base: Seq<usize>, occ: Seq<bool>, rot: nat) -> bool {
    forall|k: int| 0 <= k < base.len() ==> !occ[((base[k] + rot) % 6) as int]
}

/// The first turn from `rot` on (below six) at which the shape fits, or 0 when none does.
pub open spec fn first_fit_from(base: Seq<usize>, occ: Seq<bool>, rot: nat) -> nat
    decreases 6 - rot,
{
    if rot >= 6 {
        0
    } else if fits_at(base, occ, rot) {
        rot
    } else {
        first_fit_from(base, occ, rot + 1)
    }
}

/// The edge kind a segment of a quest tile shows: water on a lake shape or a hybrid is
/// flexible water.
pub open spec fn quest_seg_edge(st: SegmentType, gt: GroupType, hybrid: bool) -> EdgeType {
    if gt == GroupType::Water {
        if spec_is_lake_shape(st) || hybrid {
            EdgeType::FlexibleWater
        } else {
            EdgeType::Water
        }
    } else {
        spec_edge_of_group(gt)
    }
}

/// A segment laid on a quest tile: shape, terrain, hybrid flag and chosen turn.
pub type Placement = (SegmentType, GroupType, bool, nat);

/// How a quest tile's tokens are laid out: each token that parses as a segment code is
/// turned to the first position where it covers only free directions (or left at 0),
/// and then occupies them. Gives the placements and the occupied directions.
pub open spec fn quest_fold(tokens: Seq<Seq<char>>) -> (Seq<Placement>, Seq<bool>)
    decreases tokens.len(),
{
    if tokens.len() == 0 {
        (Seq::<Placement>::empty(), seq![false, false, false, false, false, false])
    } else {
        let prev = quest_fold(tokens.drop_last());
        match spec_parse_segment_code(tokens.last()) {
            None => prev,
            Some(p) => {
                let base = spec_base_edges(p.0);
                let rot = first_fit_from(base, prev.1, 0);
                (prev.0.push((p.0, p.1, p.2, rot)), paint(prev.1, base, rot, true))
            },
        }
    }
}

/// The edges painted by a list of quest placements.
pub open spec fn placements_edges(pl: Seq<Placement>) -> Seq<EdgeType>
    decreases pl.len(),
{
    if pl.len() == 0 {
        all_edges(EdgeType::Plain)
    } else {
        let p = pl.last();
        paint(placements_edges(pl.drop_last()), spec_base_edges(p.0), p.3, quest_seg_edge(p.0, p.1, p.2))
    }
}

/// Whether a quest name marks a water train station tile.
pub open spec fn is_station_name(name: Seq<char>) -> bool {
    station_from(spec_to_lowercase(name))
}

/// Whether a lowercased quest name `l` marks a water train station tile.
pub open spec fn station_from(l: Seq<char>) -> bool {
    seq_contains_sub(l, "watertrainstation"@) || seq_contains_sub(l, "water_trainstation"@)
}

/// The six edges of a tile before it is turned for placement.
pub open spec fn spec_hex_edges(t: GeneratedTile) -> Seq<EdgeType> {
    match t {
        GeneratedTile::Normal { segments, .. } => normal_edges(segments@),
        GeneratedTile::Quest { quest_data, .. } => if is_station_name(quest_data.quest_type@) {
            all_edges(EdgeType::WaterTrainStation)
        } else {
            placements_edges(quest_fold(spec_config_tokens(quest_data.quest_type@)).0)
        },
        GeneratedTile::Reward { .. } => all_edges(EdgeType::WaterTrainStation),
    }
}

/// A tile whose computations stay within machine integers when it is placed turned by
/// `rot`: segment turns leave room for the placement turn, and quest element sums fit.
pub open spec fn tile_fits(t: GeneratedTile, rot: nat) -> bool {
    match t {
        GeneratedTile::Normal { segments, .. } => (forall|i: int|
            0 <= i < segments@.len() ==> #[trigger] segments@[i].rotation + rot + 5 <= usize::MAX)
            && (forall|gt: GroupType| #[trigger] normal_group_elements(segments@, gt) <= usize::MAX),
        GeneratedTile::Quest { quest_data, .. } => quest_name_fits(quest_data.quest_type@),
        GeneratedTile::Reward { .. } => true,
    }
}

/// The segments of a normal tile turned by `pr`.
pub open spec fn normal_seg_models(segs: Seq<SegmentData>, pr: nat) -> Seq<SegModel> {
    segs.map_values(|seg: SegmentData| (seg.group_type, seg.segment_type,
        spec_segment_element_count(seg.group_type, seg.segment_type),
        spec_base_edges(seg.segment_type).map_values(|b: usize| ((b + seg.rotation + pr) % 6) as usize)))
}

/// The segments of a quest tile's placements turned by `pr`.
pub open spec fn placement_seg_models(pl: Seq<Placement>, pr: nat) -> Seq<SegModel> {
    pl.map_values(|p: Placement| (p.1, p.0, spec_segment_element_count(p.1, p.0),
        spec_base_edges(p.0).map_values(|b: usize| ((b + p.3 + pr) % 6) as usize)))
}

/// The directions `d` below `n` whose edge belongs to terrain `gt`, in increasing order.
pub open spec fn dirs_of_group(edges: Seq<EdgeType>, gt: GroupType, n: nat) -> Seq<usize>
    decreases n,
{
    if n == 0 {
        Seq::<usize>::empty()
    } else {
        let prev = dirs_of_group(edges, gt, (n - 1) as nat);
        if spec_group_of_edge(edges[n - 1]) == Some(gt) {
            prev.push((n - 1) as usize)
        } else {
            prev
        }
    }
}

/// The segments of a tile placed turned by `pr`. A quest tile whose name gives no
/// segment code gets one segment of its main terrain on all its edges of that terrain.
pub open spec fn spec_segments(t: GeneratedTile, pr: nat) -> Seq<SegModel> {
    match t {
        GeneratedTile::Normal { segments, .. } => normal_seg_models(segments@, pr),
        GeneratedTile::Quest { quest_data, .. } => {
            let name = quest_data.quest_type@;
            let pl = quest_fold(spec_config_tokens(name)).0;
            if pl.len() > 0 {
                placement_seg_models(pl, pr)
            } else {
                let gt = spec_primary_group_type(name);
                seq![(gt, SegmentType::ST1A, spec_own_elements_for_group(name, gt),
                    dirs_of_group(rotated(spec_hex_edges(t), pr), gt, 6))]
            }
        },
        GeneratedTile::Reward { .. } => seq![
            (GroupType::Water, SegmentType::ST6A, 1nat, seq![0usize, 1, 2, 3, 4, 5]),
            (GroupType::TrainTracks, SegmentType::ST6A, 6nat, seq![0usize, 1, 2, 3, 4, 5]),
        ],
    }
}

/// The code of a normal tile's segment, such as `"3AV"`.
pub open spec fn spec_seg_code(seg: SegmentData) -> Seq<char> {
    spec_shape_code(seg.segment_type).push(spec_letter(seg.group_type))
}

/// The terrain text of a tile: its segment codes for a normal tile ("Plain" without
/// segments), the quest's terrain description, or "6AW 6AT" for a station.
pub open spec fn spec_tile_preset_string(t: GeneratedTile) -> Seq<char> {
    match t {
        GeneratedTile::Normal { segments, .. } => if segments@.len() == 0 {
            "Plain"@
        } else {
            join_space(seg_codes(segments@))
        },
        GeneratedTile::Quest { quest_data, .. } => spec_config_string(quest_data.quest_type@),
        GeneratedTile::Reward { .. } => "6AW 6AT"@,
    }
}

/// The codes of a list of segments.
pub open spec fn seg_codes(segs: Seq<SegmentData>) -> Seq<Seq<char>> {
    segs.map_values(|seg: SegmentData| spec_seg_code(seg))
}

/// Whether turning the edges by `p` leaves them unchanged.
pub open spec fn has_period(e: Seq<EdgeType>, p: nat) -> bool {
    forall|i: int| 0 <= i < 6 ==> #[trigger] e[i] == e[(i + p) % 6]
}

/// The smallest of 1, 2, 3 by which the edges repeat, or 6.
pub open spec fn spec_period(e: Seq<EdgeType>) -> nat {
    if has_period(e, 1) {
        1
    } else if has_period(e, 2) {
        2
    } else if has_period(e, 3) {
        3
    } else {
        6
    }
}

/// The base tile of any tile.
pub open spec fn spec_base_tile(t: GeneratedTile) -> BaseTile {
    match t {
        GeneratedTile::Normal { base_tile, .. } => base_tile,
        GeneratedTile::Quest { base_tile, .. } => base_tile,
        GeneratedTile::Reward { base_tile } => base_tile,
    }
}

fn paint_edges(edges: &mut [EdgeType; 6], base: &[usize], rot: usize, et: EdgeType)
    requires
        forall|k: int| 0 <= k < base@.len() ==> base@[k] < 6,
        rot + 6 <= usize::MAX,
    ensures
        final(edges)@ == paint(old(edges)@, base@, rot as nat, et),
{
    let ghost orig = edges@;
    let mut k: usize = 0;
    assert(base@.take(0) =~= Seq::<usize>::empty());
    while k < base.len()
        invariant
            forall|m: int| 0 <= m < base@.len() ==> base@[m] < 6,
            rot + 6 <= usize::MAX,
            k <= base.len(),
            edges@ == paint(orig, base@.take(k as int), rot as nat, et),
        decreases base.len() - k,
    {
        let idx = (base[k] + rot) % 6;
        edges[idx] = et;
        assert(base@.take(k + 1).drop_last() =~= base@.take(k as int));
        k += 1;
        assert(edges@ =~= paint(orig, base@.take(k as int), rot as nat, et));
    }
    assert(base@.take(base@.len() as int) =~= base@);
}

fn paint_occ(occ: &mut [bool; 6], base: &[usize], rot: usize)
    requires
        forall|k: int| 0 <= k < base@.len() ==> base@[k] < 6,
        rot + 6 <= usize::MAX,
    ensures
        final(occ)@ == paint(old(occ)@, base@, rot as nat, true),
{
    let ghost orig = occ@;
    let mut k: usize = 0;
    assert(base@.take(0) =~= Seq::<usize>::empty());
    while k < base.len()
        invariant
            forall|m: int| 0 <= m < base@.len() ==> base@[m] < 6,
            rot + 6 <= usize::MAX,
            k <= base.len(),
            occ@ == paint(orig, base@.take(k as int), rot as nat, true),
        decreases base.len() - k,
    {
        let idx = (base[k] + rot) % 6;
        occ[idx] = true;
        assert(base@.take(k + 1).drop_last() =~= base@.take(k as int));
        k += 1;
        assert(occ@ =~= paint(orig, base@.take(k as int), rot as nat, true));
    }
    assert(base@.take(base@.len() as int) =~= base@);
}

fn fits_at_exec(base: &[usize], occ: &[bool; 6], rot: usize) -> (r: bool)
    requires
        forall|k: int| 0 <= k < base@.len() ==> base@[k] < 6,
        rot < 6,
    ensures
        r == fits_at(base@, occ@, rot as nat),
{
    let mut k: usize = 0;
    while k < base.len()
        invariant
            forall|m: int| 0 <= m < base@.len() ==> base@[m] < 6,
            rot < 6,
            k <= base.len(),
            forall|m: int| 0 <= m < k ==> !occ@[((base@[m] + rot) % 6) as int],
        decreases base.len() - k,
    {
        if occ[(base[k] + rot) % 6] {
            return false;
        }
        k += 1;
    }
    true
}

fn first_fit(base: &[usize], occ: &[bool; 6]) -> (r: usize)
    requires
        forall|k: int| 0 <= k < base@.len() ==> base@[k] < 6,
    ensures
        r == first_fit_from(base@, occ@, 0),
        r < 6,
{
    let mut rot: usize = 0;
    while rot < 6
        invariant
            forall|k: int| 0 <= k < base@.len() ==> base@[k] < 6,
            rot <= 6,
            first_fit_from(base@, occ@, 0) == first_fit_from(base@, occ@, rot as nat),
        decreases 6 - rot,
    {
        if fits_at_exec(base, occ, rot) {
            return rot;
        }
        rot += 1;
    }
    0
}

fn quest_seg_edge_exec(st: SegmentType, gt: GroupType, hybrid: bool) -> (r: EdgeType)
    ensures
        r == quest_seg_edge(st, gt, hybrid),
{
    if gt == GroupType::Water {
        if st.is_lake_shape() || hybrid {
            EdgeType::FlexibleWater
        } else {
            EdgeType::Water
        }
    } else {
        EdgeType::from(gt)
    }
}

/// Edges and occupation of a quest tile laid out from its tokens.
fn quest_layout_exec(tokens: &Vec<Vec<char>>) -> (r: ([EdgeType; 6], [bool; 6]))
    ensures
        r.0@ == placements_edges(quest_fold(views(tokens@)).0),
        r.1@ == quest_fold(views(tokens@)).1,
{
    let mut edges = [EdgeType::Plain; 6];
    let mut occ = [false; 6];
    let mut i: usize = 0;
    let ghost ts = views(tokens@);
    assert(ts.take(0) =~= Seq::<Seq<char>>::empty());
    assert(edges@ =~= all_edges(EdgeType::Plain));
    assert(occ@ =~= seq![false, false, false, false, false, false]);
    while i < tokens.len()
        invariant
            ts == views(tokens@),
            i <= tokens.len(),
            edges@ == placements_edges(quest_fold(ts.take(i as int)).0),
            occ@ == quest_fold(ts.take(i as int)).1,
        decreases tokens.len() - i,
    {
        proof {
            assert(ts.take(i + 1).drop_last() =~= ts.take(i as int));
            assert(ts.take(i + 1).last() == tokens@[i as int]@);
        }
        match parse_segment_chars(&tokens[i]) {
            Some(p) => {
                let base = p.0.base_edges();
                let et = quest_seg_edge_exec(p.0, p.1, p.2);
                let rot = first_fit(base, &occ);
                proof {
                    let prev = quest_fold(ts.take(i as int));
                    let nxt = prev.0.push((p.0, p.1, p.2, rot as nat));
                    assert(nxt.drop_last() =~= prev.0);
                }
                paint_edges(&mut edges, base, rot, et);
                paint_occ(&mut occ, base, rot);
            },
            None => {},
        }
        i += 1;
    }
    assert(ts.take(tokens@.len() as int) =~= ts);
    (edges, occ)
}

fn normal_seg_edge_exec(seg: &SegmentData) -> (r: EdgeType)
    ensures
        r == normal_seg_edge(*seg),
{
    if seg.group_type == GroupType::Water {
        if seg.segment_type == SegmentType::ST6A || seg.is_hybrid {
            EdgeType::FlexibleWater
        } else {
            EdgeType::Water
        }
    } else {
        EdgeType::from(seg.group_type)
    }
}

fn station_name(name: &Vec<char>) -> (r: bool)
    ensures
        r == is_station_name(name@),
{
    let l = lowercase_chars(name);
    is_station_from(&l)
}

/// Whether a quest name whose lowercase is `l` marks a water train station tile.
pub fn is_station_from(l: &Vec<char>) -> (r: bool)
    ensures
        r == station_from(l@),
{
    contains_str(l, "watertrainstation") || contains_str(l, "water_trainstation")
}

fn has_period_exec(e: &[EdgeType; 6], p: usize) -> (r: bool)
    requires
        p < 6,
    ensures
        r == has_period(e@, p as nat),
{
    let mut i: usize = 0;
    while i < 6
        invariant
            p < 6,
            i <= 6,
            forall|k: int| 0 <= k < i ==> #[trigger] e@[k] == e@[(k + p) % 6],
        decreases 6 - i,
    {
        if e[i] != e[(i + p) % 6] {
            return false;
        }
        i += 1;
    }
    true
}

impl GeneratedTile {
    /// A reward station tile named `"SpecialTile <id>"`.
    pub fn new_reward_station(id: usize, seed: i32) -> (r: Self)
        ensures
            r matches GeneratedTile::Reward { base_tile } && base_tile.id == id && base_tile.seed == seed
                && !base_tile.is_generated && base_tile.name@ == "SpecialTile"@ + seq![' '] + decimal(id as nat),
    {
        GeneratedTile::Reward { base_tile: BaseTile::new(id, seed, "SpecialTile") }
    }

    /// The terrain text of this tile.
    pub fn tile_preset_string(&self) -> (r: String)
        ensures
            r@ == spec_tile_preset_string(*self),
    {
        match self {
            GeneratedTile::Normal { segments, .. } => {
                if segments.len() == 0 {
                    return String::from_str("Plain");
                }
                let mut codes: Vec<Vec<char>> = Vec::new();
                let mut i: usize = 0;
                while i < segments.len()
                    invariant
                        i <= segments.len(),
                        views(codes@) == seg_codes(segments@.take(i as int)),
                    decreases segments.len() - i,
                {
                    let c = segments[i].config_code();
                    let cc = chars_of(c.as_str());
                    let ghost before = views(codes@);
                    codes.push(cc);
                    proof {
                        assert(views(codes@) =~= before.push(cc@));
                        assert(segments@.take(i + 1) =~= segments@.take(i as int).push(segments@[i as int]));
                        assert(seg_codes(segments@.take(i + 1)) =~= seg_codes(segments@.take(i as int)).push(
                            spec_seg_code(segments@[i as int])));
                    }
                    i += 1;
                    assert(views(codes@) =~= seg_codes(segments@.take(i as int)));
                }
                assert(segments@.take(segments@.len() as int) =~= segments@);
                let joined = join_with_space(&codes);
                string_from_chars(&joined)
            },
            GeneratedTile::Quest { quest_data, .. } => quest_data.config_string(),
            GeneratedTile::Reward { .. } => String::from_str("6AW 6AT"),
        }
    }

    /// The base tile of this tile.
    pub fn base_tile(&self) -> (r: &BaseTile)
        ensures
            *r == spec_base_tile(*self),
    {
        match self {
            GeneratedTile::Normal { base_tile, .. } => base_tile,
            GeneratedTile::Quest { base_tile, .. } => base_tile,
            GeneratedTile::Reward { base_tile } => base_tile,
        }
    }

    /// The smallest turn (1, 2 or 3) that maps the tile's edges onto themselves, or 6.
    pub fn rotation_symmetry_period(&self) -> (r: usize)
        ensures
            r == spec_period(spec_hex_edges(*self)),
    {
        let cfg = self.to_hex_edge_config();
        if has_period_exec(&cfg.edges, 1) {
            1
        } else if has_period_exec(&cfg.edges, 2) {
            2
        } else if has_period_exec(&cfg.edges, 3) {
            3
        } else {
            6
        }
    }

    /// The six edges of this tile before it is turned.
    pub fn to_hex_edge_config(&self) -> (r: HexEdgeConfig)
        ensures
            r.edges@ == spec_hex_edges(*self),
    {
        match self {
            GeneratedTile::Normal { segments, .. } => {
                let mut edges = [EdgeType::Plain; 6];
                let mut i: usize = 0;
                assert(segments@.take(0) =~= Seq::<SegmentData>::empty());
                assert(edges@ =~= all_edges(EdgeType::Plain));
                while i < segments.len()
                    invariant
                        i <= segments.len(),
                        edges@ == normal_edges(segments@.take(i as int)),
                    decreases segments.len() - i,
                {
                    let seg = &segments[i];
                    let base = seg.segment_type.base_edges();
                    let et = normal_seg_edge_exec(seg);
                    let rot = seg.rotation % 6;
                    paint_edges(&mut edges, base, rot, et);
                    proof {
                        assert(segments@.take(i + 1).drop_last() =~= segments@.take(i as int));
                        lemma_paint_mod(normal_edges(segments@.take(i as int)), spec_base_edges(seg.segment_type),
                            seg.rotation as nat, et);
                    }
                    i += 1;
                }
                assert(segments@.take(segments@.len() as int) =~= segments@);
                HexEdgeConfig::new(edges)
            },
            GeneratedTile::Quest { quest_data, .. } => {
                let name = chars_of(quest_data.quest_type.as_str());
                if station_name(&name) {
                    let r = HexEdgeConfig::new([EdgeType::WaterTrainStation; 6]);
                    assert(r.edges@ =~= all_edges(EdgeType::WaterTrainStation));
                    return r;
                }
                let cfg = config_chars(&name);
                let tokens = split_whitespace_chars(&cfg);
                let (edges, _occ) = quest_layout_exec(&tokens);
                HexEdgeConfig::new(edges)
            },
            GeneratedTile::Reward { .. } => {
                let r = HexEdgeConfig::new([EdgeType::WaterTrainStation; 6]);
                assert(r.edges@ =~= all_edges(EdgeType::WaterTrainStation));
                r
            },
        }
    }
}

fn turned_edges(base: &[usize], rot: usize, pr: usize) -> (r: Vec<usize>)
    requires
        forall|k: int| 0 <= k < base@.len() ==> base@[k] < 6,
        rot + pr + 5 <= usize::MAX,
    ensures
        r@ == base@.map_values(|b: usize| ((b + rot + pr) % 6) as usize),
        forall|k: int| 0 <= k < r@.len() ==> r@[k] < 6,
{
    let mut r: Vec<usize> = Vec::new();
    let mut k: usize = 0;
    while k < base.len()
        invariant
            forall|m: int| 0 <= m < base@.len() ==> base@[m] < 6,
            rot + pr + 5 <= usize::MAX,
            k <= base.len(),
            r@ == base@.take(k as int).map_values(|b: usize| ((b + rot + pr) % 6) as usize),
        decreases base.len() - k,
    {
        r.push((base[k] + rot + pr) % 6);
        k += 1;
        assert(r@ =~= base@.take(k as int).map_values(|b: usize| ((b + rot + pr) % 6) as usize));
    }
    assert(base@.take(base@.len() as int) =~= base@);
    r
}

fn dirs_of_group_exec(edges: &[EdgeType; 6], gt: GroupType) -> (r: Vec<usize>)
    ensures
        r@ == dirs_of_group(edges@, gt, 6),
{
    let mut r: Vec<usize> = Vec::new();
    let mut d: usize = 0;
    while d < 6
        invariant
            d <= 6,
            r@ == dirs_of_group(edges@, gt, d as nat),
        decreases 6 - d,
    {
        if edges[d].to_group_type() == Some(gt) {
            r.push(d);
        }
        d += 1;
    }
    r
}

fn normal_segments(segments: &Vec<SegmentData>, pr: usize) -> (result: Vec<TileSegmentData>)
    requires
        forall|m: int| 0 <= m < segments@.len() ==> #[trigger] segments@[m].rotation + pr + 5 <= usize::MAX,
    ensures
        result@.map_values(|t: TileSegmentData| seg_model(t)) == normal_seg_models(segments@, pr as nat),
        forall|i: int, k: int| 0 <= i < result@.len() && 0 <= k < result@[i].edges@.len() ==> #[trigger] result@[i].edges@[k] < 6,
        forall|i: int| 0 <= i < result@.len() ==> #[trigger] result@[i].element_count <= 33,
{
    let mut result: Vec<TileSegmentData> = Vec::new();
    let mut i: usize = 0;
    while i < segments.len()
        invariant
            forall|m: int| 0 <= m < segments@.len() ==> #[trigger] segments@[m].rotation + pr + 5 <= usize::MAX,
            i <= segments.len(),
            result@.map_values(|t: TileSegmentData| seg_model(t)) == normal_seg_models(segments@.take(i as int), pr as nat),
            forall|m: int, k: int| 0 <= m < result@.len() && 0 <= k < result@[m].edges@.len() ==> #[trigger] result@[m].edges@[k] < 6,
            forall|m: int| 0 <= m < result@.len() ==> #[trigger] result@[m].element_count <= 33,
        decreases segments.len() - i,
    {
        let seg = &segments[i];
            let base = seg.segment_type.base_edges();
        let rotated_edges = turned_edges(base, seg.rotation, pr);
        let element_count = get_segment_element_count(seg.group_type, seg.segment_type);
        let ghost before = result@;
        result.push(TileSegmentData {
            group_type: seg.group_type,
            segment_type: seg.segment_type,
            element_count,
            edges: rotated_edges,
        });
        proof {
            assert(result@ =~= before.push(result@.last()));
            assert(segments@.take(i + 1) =~= segments@.take(i as int).push(segments@[i as int]));
            assert(result@.map_values(|t: TileSegmentData| seg_model(t)) =~= before.map_values(
                |t: TileSegmentData| seg_model(t)).push(seg_model(result@.last())));
            assert(normal_seg_models(segments@.take(i + 1), pr as nat) =~= normal_seg_models(
                segments@.take(i as int), pr as nat).push(normal_seg_models(segments@, pr as nat)[i as int]));
        }
        i += 1;
    }
    assert(segments@.take(segments@.len() as int) =~= segments@);
    result
}

fn quest_segments(tile: &GeneratedTile, quest_data: &QuestTileData, pr: usize) -> (result: Vec<TileSegmentData>)
    requires
        *tile matches GeneratedTile::Quest { quest_data: q, .. } && q == *quest_data,
        quest_name_fits(quest_data.quest_type@),
        pr + 10 <= usize::MAX,
    ensures
        result@.map_values(|t: TileSegmentData| seg_model(t)) == spec_segments(*tile, pr as nat),
        forall|i: int, k: int| 0 <= i < result@.len() && 0 <= k < result@[i].edges@.len() ==> #[trigger] result@[i].edges@[k] < 6,
{
    let mut result: Vec<TileSegmentData> = Vec::new();
    let name = chars_of(quest_data.quest_type.as_str());
    let cfg = config_chars(&name);
    let tokens = split_whitespace_chars(&cfg);
    let ghost ts = views(tokens@);
    let mut occ = [false; 6];
    let mut i: usize = 0;
    assert(ts.take(0) =~= Seq::<Seq<char>>::empty());
    assert(occ@ =~= seq![false, false, false, false, false, false]);
    while i < tokens.len()
        invariant
            ts == views(tokens@),
            pr + 10 <= usize::MAX,
            i <= tokens.len(),
            occ@ == quest_fold(ts.take(i as int)).1,
            result@.map_values(|t: TileSegmentData| seg_model(t)) == placement_seg_models(quest_fold(ts.take(i as int)).0, pr as nat),
            forall|m: int, k: int| 0 <= m < result@.len() && 0 <= k < result@[m].edges@.len() ==> #[trigger] result@[m].edges@[k] < 6,
        decreases tokens.len() - i,
    {
        proof {
            assert(ts.take(i + 1).drop_last() =~= ts.take(i as int));
            assert(ts.take(i + 1).last() == tokens@[i as int]@);
        }
        match parse_segment_chars(&tokens[i]) {
            Some(p) => {
                let base = p.0.base_edges();
                let best_rot = first_fit(base, &occ);
                paint_occ(&mut occ, base, best_rot);
                let rotated_edges = turned_edges(base, best_rot, pr);
                let element_count = get_segment_element_count(p.1, p.0);
                let ghost before = result@;
                result.push(TileSegmentData {
                    group_type: p.1,
                    segment_type: p.0,
                    element_count,
                    edges: rotated_edges,
                });
                proof {
                    let prev = quest_fold(ts.take(i as int)).0;
                    let nxt = prev.push((p.0, p.1, p.2, best_rot as nat));
                    assert(result@ =~= before.push(result@.last()));
                    assert(result@.map_values(|t: TileSegmentData| seg_model(t)) =~= before.map_values(
                        |t: TileSegmentData| seg_model(t)).push(seg_model(result@.last())));
                    assert(placement_seg_models(nxt, pr as nat) =~= placement_seg_models(prev, pr as nat).push(
                        placement_seg_models(nxt, pr as nat).last()));
                }
            },
            None => {},
        }
        i += 1;
    }
    assert(ts.take(tokens@.len() as int) =~= ts);
    if result.len() == 0 {
        let gt = primary_group_of_name(&name);
        let mut cfg2 = tile.to_hex_edge_config();
        cfg2.rotate(pr);
        let edges = dirs_of_group_exec(&cfg2.edges, gt);
        let element_count = own_elements_of_name(&name, gt);
        let ghost before = result@;
        result.push(TileSegmentData {
            group_type: gt,
            segment_type: SegmentType::ST1A,
            element_count,
            edges,
        });
        proof {
            lemma_dirs_of_group_bound(cfg2.edges@, gt, 6);
            assert(before.len() == 0);
            assert(result@.map_values(|t: TileSegmentData| seg_model(t)) =~= seq![seg_model(result@[0])]);
        }
    }
    result
}

fn reward_segments(pr: usize) -> (result: Vec<TileSegmentData>)
    ensures
        result@.map_values(|t: TileSegmentData| seg_model(t)) == seq![
            (GroupType::Water, SegmentType::ST6A, 1nat, seq![0usize, 1, 2, 3, 4, 5]),
            (GroupType::TrainTracks, SegmentType::ST6A, 6nat, seq![0usize, 1, 2, 3, 4, 5]),
        ],
        forall|i: int, k: int| 0 <= i < result@.len() && 0 <= k < result@[i].edges@.len() ==> #[trigger] result@[i].edges@[k] < 6,
        forall|i: int| 0 <= i < result@.len() ==> #[trigger] result@[i].element_count <= 33,
{
    let mut result: Vec<TileSegmentData> = Vec::new();
    let mut all1: Vec<usize> = Vec::new();
    let mut all2: Vec<usize> = Vec::new();
    let mut d: usize = 0;
    while d < 6
        invariant
            d <= 6,
            all1@ == Seq::new(d as nat, |k: int| k as usize),
            all2@ == Seq::new(d as nat, |k: int| k as usize),
        decreases 6 - d,
    {
        all1.push(d);
        all2.push(d);
        d += 1;
        assert(all1@ =~= Seq::new(d as nat, |k: int| k as usize));
        assert(all2@ =~= Seq::new(d as nat, |k: int| k as usize));
    }
    result.push(TileSegmentData {
        group_type: GroupType::Water,
        segment_type: SegmentType::ST6A,
        element_count: 1,
        edges: all1,
    });
    result.push(TileSegmentData {
        group_type: GroupType::TrainTracks,
        segment_type: SegmentType::ST6A,
        element_count: 6,
        edges: all2,
    });
    assert(result@[0].edges@ =~= seq![0usize, 1, 2, 3, 4, 5]);
assert(result@[1].edges@ =~= seq![0usize, 1, 2, 3, 4, 5]);
assert(result@.map_values(|t: TileSegmentData| seg_model(t)) =~= seq![
    (GroupType::Water, SegmentType::ST6A, 1nat, seq![0usize, 1, 2, 3, 4, 5]),
    (GroupType::TrainTracks, SegmentType::ST6A, 6nat, seq![0usize, 1, 2, 3, 4, 5]),
]);
    result
}

impl GeneratedTile {
    /// The terrain segments of this tile once it is placed turned by `placement_rotation`,
    /// with the world directions each covers and its element count.
    pub fn get_segments(&self, placement_rotation: usize) -> (r: Vec<TileSegmentData>)
        requires
            tile_fits(*self, placement_rotation as nat),
            placement_rotation + 10 <= usize::MAX,
        ensures
            r@.map_values(|t: TileSegmentData| seg_model(t)) == spec_segments(*self, placement_rotation as nat),
            forall|i: int, k: int| 0 <= i < r@.len() && 0 <= k < r@[i].edges@.len() ==> #[trigger] r@[i].edges@[k] < 6,
    {
        match self {
            GeneratedTile::Normal { segments, .. } => normal_segments(segments, placement_rotation),
            GeneratedTile::Quest { quest_data, .. } => quest_segments(self, quest_data, placement_rotation),
            GeneratedTile::Reward { .. } => reward_segments(placement_rotation),
        }
    }
}

/// The directions listed by `dirs_of_group` are below `n`.
pub proof fn lemma_dirs_of_group_bound(edges: Seq<EdgeType>, gt: GroupType, n: nat)
    ensures
        forall|k: int| 0 <= k < dirs_of_group(edges, gt, n).len() ==> #[trigger] dirs_of_group(edges, gt, n)[k] < n,
    decreases n,
{
    if n > 0 {
        lemma_dirs_of_group_bound(edges, gt, (n - 1) as nat);
        let prev = dirs_of_group(edges, gt, (n - 1) as nat);
        assert forall|k: int| 0 <= k < dirs_of_group(edges, gt, n).len() implies #[trigger] dirs_of_group(edges, gt, n)[k] < n by {
            if k < prev.len() {
                assert(dirs_of_group(edges, gt, n)[k] == prev[k]);
            }
        }
    }
}

/// The elements of terrain `gt` over the segments of a normal tile.
pub open spec fn normal_group_elements(segs: Seq<SegmentData>, gt: GroupType) -> nat
    decreases segs.len(),
{
    if segs.len() == 0 {
        0
    } else {
        normal_group_elements(segs.drop_last(), gt) + if segs.last().group_type == gt {
            spec_segment_element_count(gt, segs.last().segment_type)
        } else {
            0
        }
    }
}

/// The elements of terrain `gt` a whole tile carries: a quest tile's own elements; for
/// a normal tile the sum over its segments of that terrain, or, when that is zero, the
/// number of its edges of that terrain; for a station, its edges of that terrain (none).
pub open spec fn spec_tile_element_count(t: GeneratedTile, gt: GroupType) -> nat {
    match t {
        GeneratedTile::Quest { quest_data, .. } => spec_own_elements_for_group(quest_data.quest_type@, gt),
        GeneratedTile::Normal { segments, .. } => {
            let total = normal_group_elements(segments@, gt);
            if total > 0 {
                total
            } else {
                dirs_of_group(spec_hex_edges(t), gt, 6).len()
            }
        },
        GeneratedTile::Reward { .. } => dirs_of_group(spec_hex_edges(t), gt, 6).len(),
    }
}

/// The elements of terrain `gt` that a tile carries over all its segments, connected or not.
pub fn tile_element_count(tile: &GeneratedTile, gt: GroupType) -> (r: usize)
    requires
        tile_fits(*tile, 0),
    ensures
        r == spec_tile_element_count(*tile, gt),
{
    match tile {
        GeneratedTile::Quest { quest_data, .. } => quest_data.own_elements_for_group(gt),
        GeneratedTile::Normal { segments, .. } => {
            let mut total: usize = 0;
            let mut i: usize = 0;
            assert(segments@.take(0) =~= Seq::<SegmentData>::empty());
            while i < segments.len()
                invariant
                    i <= segments.len(),
                    total == normal_group_elements(segments@.take(i as int), gt),
                    normal_group_elements(segments@, gt) <= usize::MAX,
                decreases segments.len() - i,
            {
                proof {
                    assert(segments@.take(i + 1).drop_last() =~= segments@.take(i as int));
                    lemma_normal_group_elements_prefix(segments@, gt, i + 1);
                }
                if segments[i].group_type == gt {
                    total = total + get_segment_element_count(gt, segments[i].segment_type);
                }
                i += 1;
            }
            assert(segments@.take(segments@.len() as int) =~= segments@);
            if total > 0 {
                total
            } else {
                let cfg = tile.to_hex_edge_config();
                let dirs = dirs_of_group_exec(&cfg.edges, gt);
                dirs.len()
            }
        },
        GeneratedTile::Reward { .. } => {
            let cfg = tile.to_hex_edge_config();
            let dirs = dirs_of_group_exec(&cfg.edges, gt);
            dirs.len()
        },
    }
}

/// A prefix of the segments carries no more elements than all of them.
pub proof fn lemma_normal_group_elements_prefix(segs: Seq<SegmentData>, gt: GroupType, k: int)
    requires
        0 <= k <= segs.len(),
    ensures
        normal_group_elements(segs.take(k), gt) <= normal_group_elements(segs, gt),
    decreases segs.len(),
{
    if k < segs.len() {
        assert(segs.drop_last().take(k) =~= segs.take(k));
        lemma_normal_group_elements_prefix(segs.drop_last(), gt, k);
    } else {
        assert(segs.take(k) =~= segs);
    }
}

/// Painting by a turn depends on the turn only modulo six.
pub proof fn lemma_paint_mod<T>(s: Seq<T>, base: Seq<usize>, rot: nat, v: T)
    ensures
        paint(s, base, rot, v) == paint(s, base, rot % 6, v),
    decreases base.len(),
{
    if base.len() > 0 {
        lemma_paint_mod(s, base.drop_last(), rot, v);
        assert((base.last() + rot) % 6 == (base.last() + rot % 6) % 6) by (nonlinear_arith);
    }
}

} // verus!
