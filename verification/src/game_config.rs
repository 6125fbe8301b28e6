use vstd::prelude::*;
use crate::text::{
    chars_of, chars_eq_str, split_on, split_chars, views, strip_prefix_all, strip_suffix_all,
    strip_prefix_all_chars, strip_suffix_all_chars,
};
use crate::tile::{shape_of, shape_from_chars, EqualityComparison};

verus! {

/// The five kinds of terrain a segment, a group or a quest can belong to.
#[derive(Debug, Clone, Copy, PartialEq, Eq, Hash, Structural)]
pub enum GroupType {
    Village,
    Forest,
    Agriculture,
    TrainTracks,
    Water,
}

/// The thirteen segment shapes; the digit is the number of edges a segment covers.
#[derive(Debug, Clone, Copy, PartialEq, Eq, Hash, Structural)]
pub enum SegmentType {
    ST1A,
    ST2A,
    ST2B,
    ST2C,
    ST3A,
    ST3B,
    ST3C,
    ST3D,
    ST4A,
    ST4B,
    ST4C,
    ST5A,
    ST6A,
}

/// Number of small objects (houses, trees, fields, river or track pieces) a segment carries.
pub open spec fn spec_segment_element_count(group_type: GroupType, segment_type: SegmentType) -> nat {
    match group_type {
        GroupType::Village => match segment_type {
            SegmentType::ST1A => 1,
            SegmentType::ST2A => 2,
            SegmentType::ST2B | SegmentType::ST2C | SegmentType::ST3A => 3,
            SegmentType::ST3B | SegmentType::ST3C | SegmentType::ST3D => 4,
            SegmentType::ST4A | SegmentType::ST4B | SegmentType::ST4C => 5,
            SegmentType::ST5A | SegmentType::ST6A => 7,
        },
        GroupType::Forest => match segment_type {
            SegmentType::ST1A => 4,
            SegmentType::ST2A => 10,
            SegmentType::ST2B => 15,
            SegmentType::ST2C | SegmentType::ST3A => 17,
            SegmentType::ST3B | SegmentType::ST3C | SegmentType::ST3D => 20,
            SegmentType::ST4A => 21,
            SegmentType::ST4B | SegmentType::ST4C => 24,
            SegmentType::ST5A => 29,
            SegmentType::ST6A => 33,
        },
        GroupType::Agriculture => match segment_type {
            SegmentType::ST1A | SegmentType::ST2A | SegmentType::ST3A => 1,
            SegmentType::ST2B | SegmentType::ST2C | SegmentType::ST3B | SegmentType::ST3C
            | SegmentType::ST4A | SegmentType::ST4B | SegmentType::ST5A => 2,
            SegmentType::ST3D | SegmentType::ST4C | SegmentType::ST6A => 3,
        },
        GroupType::TrainTracks | GroupType::Water => 1,
    }
}

/// Element count of a segment of the given terrain and shape.
pub fn get_segment_element_count(group_type: GroupType, segment_type: SegmentType) -> (r: usize)
    ensures
        r == spec_segment_element_count(group_type, segment_type),
        1 <= r <= 33,
{
    match group_type {
        GroupType::Village => match segment_type {
            SegmentType::ST1A => 1,
            SegmentType::ST2A => 2,
            SegmentType::ST2B | SegmentType::ST2C | SegmentType::ST3A => 3,
            SegmentType::ST3B | SegmentType::ST3C | SegmentType::ST3D => 4,
            SegmentType::ST4A | SegmentType::ST4B | SegmentType::ST4C => 5,
            SegmentType::ST5A | SegmentType::ST6A => 7,
        },
        GroupType::Forest => match segment_type {
            SegmentType::ST1A => 4,
            SegmentType::ST2A => 10,
            SegmentType::ST2B => 15,
            SegmentType::ST2C | SegmentType::ST3A => 17,
            SegmentType::ST3B | SegmentType::ST3C | SegmentType::ST3D => 20,
            SegmentType::ST4A => 21,
            SegmentType::ST4B | SegmentType::ST4C => 24,
            SegmentType::ST5A => 29,
            SegmentType::ST6A => 33,
        },
        GroupType::Agriculture => match segment_type {
            SegmentType::ST1A | SegmentType::ST2A | SegmentType::ST3A => 1,
            SegmentType::ST2B | SegmentType::ST2C | SegmentType::ST3B | SegmentType::ST3C
            | SegmentType::ST4A | SegmentType::ST4B | SegmentType::ST5A => 2,
            SegmentType::ST3D | SegmentType::ST4C | SegmentType::ST6A => 3,
        },
        GroupType::TrainTracks | GroupType::Water => 1,
    }
}

/// The shapes named by the '_'-separated parts of a tile preset name, in order; parts
/// that are not a shape code are skipped.
pub open spec fn shapes_of(parts: Seq<Seq<char>>) -> Seq<SegmentType>
    decreases parts.len(),
{
    if parts.len() == 0 {
        Seq::<SegmentType>::empty()
    } else {
        let prev = shapes_of(parts.drop_last());
        match shape_of(parts.last()) {
            Some(st) => prev.push(st),
            None => prev,
        }
    }
}

/// The segment shapes of a tile preset name such as `"2A_1A_1A"`.
pub fn parse_segments(name: &str) -> (r: Vec<SegmentType>)
    ensures
        r@ == shapes_of(split_on(name@, '_')),
{
    let cs = chars_of(name);
    let parts = split_chars(&cs, '_');
    let ghost ps = views(parts@);
    let mut r: Vec<SegmentType> = Vec::new();
    let mut i: usize = 0;
    assert(ps.take(0) =~= Seq::<Seq<char>>::empty());
    while i < parts.len()
        invariant
            ps == views(parts@),
            i <= parts.len(),
            r@ == shapes_of(ps.take(i as int)),
        decreases parts.len() - i,
    {
        proof {
            assert(ps.take(i + 1).drop_last() =~= ps.take(i as int));
            assert(ps.take(i + 1).last() == parts@[i as int]@);
        }
        match shape_from_chars(&parts[i]) {
            Some(st) => r.push(st),
            None => {},
        }
        i += 1;
    }
    assert(ps.take(parts@.len() as int) =~= ps);
    r
}

/// The quest prefab name with every leading "QuestTile_" and trailing "(Clone)" removed.
pub open spec fn prefab_core(prefab_name: Seq<char>) -> Seq<char> {
    strip_suffix_all(strip_prefix_all(prefab_name, "QuestTile_"@), "(Clone)"@)
}

/// The smallest target of a quest prefab, from the game's prefab table.
pub open spec fn spec_min_target_count(prefab_name: Seq<char>) -> nat {
    let c = prefab_core(prefab_name);
    if c == "Village_6AV"@ {
        7
    } else if c == "Village_6AV_Tower"@ || c == "Village_6AV_Fountain"@ {
        6
    } else if c == "Village_4BV_1AF_1AF_Tower"@ || c == "Village_4BV_1AF_1AF_Fountain"@
        || c == "Village_4BV_1AF_1AF"@ || c == "Village_4BV_1AF_1AF_Fox"@ || c == "Village_5AV_1AF"@
        || c == "Village_5AV_1AF_Fox"@ {
        5
    } else {
        0
    }
}

/// The smallest target of a quest prefab.
pub fn get_quest_prefab_min_target_count(prefab_name: &str) -> (r: usize)
    ensures
        r == spec_min_target_count(prefab_name@),
{
    let name = chars_of(prefab_name);
    let prefix = chars_of("QuestTile_");
    let suffix = chars_of("(Clone)");
    let a = strip_prefix_all_chars(&name, &prefix);
    let c = strip_suffix_all_chars(&a, &suffix);
    if chars_eq_str(&c, "Village_6AV") {
        7
    } else if chars_eq_str(&c, "Village_6AV_Tower") || chars_eq_str(&c, "Village_6AV_Fountain") {
        6
    } else if chars_eq_str(&c, "Village_4BV_1AF_1AF_Tower") || chars_eq_str(&c, "Village_4BV_1AF_1AF_Fountain")
        || chars_eq_str(&c, "Village_4BV_1AF_1AF") || chars_eq_str(&c, "Village_4BV_1AF_1AF_Fox")
        || chars_eq_str(&c, "Village_5AV_1AF") || chars_eq_str(&c, "Village_5AV_1AF_Fox") {
        5
    } else {
        0
    }
}


/// The two conditions a quest of terrain `gt` is drawn between: first "more than" with
/// its value, then "exactly" with its value.
pub open spec fn spec_quest_candidates(gt: GroupType) -> ((EqualityComparison, usize), (EqualityComparison, usize)) {
    let more: usize = match gt {
        GroupType::Forest => 5,
        GroupType::Agriculture => 3,
        GroupType::Village => 3,
        GroupType::TrainTracks => 3,
        GroupType::Water => 2,
    };
    let exactly: usize = match gt {
        GroupType::Forest => 4,
        GroupType::Agriculture => 3,
        GroupType::Village => 2,
        GroupType::TrainTracks => 3,
        GroupType::Water => 2,
    };
    ((EqualityComparison::MoreThan, more), (EqualityComparison::Exactly, exactly))
}

/// The two conditions a quest of terrain `group_type` is drawn between.
pub fn quest_condition_candidates(group_type: GroupType) -> (r: ((EqualityComparison, usize), (EqualityComparison, usize)))
    ensures
        r == spec_quest_candidates(group_type),
{
    let more: usize = match group_type {
        GroupType::Forest => 5,
        GroupType::Agriculture => 3,
        GroupType::Village => 3,
        GroupType::TrainTracks => 3,
        GroupType::Water => 2,
    };
    let exactly: usize = match group_type {
        GroupType::Forest => 4,
        GroupType::Agriculture => 3,
        GroupType::Village => 2,
        GroupType::TrainTracks => 3,
        GroupType::Water => 2,
    };
    ((EqualityComparison::MoreThan, more), (EqualityComparison::Exactly, exactly))
}

} // verus!
