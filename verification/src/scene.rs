use vstd::prelude::*;
use crate::color::{Color, saturate_channel, tint};
use crate::game::forest_density;
use crate::world::{ForestSectionKind, LaneKind, SectionKind};

verus! {

/// The colours of the player character's body parts.
pub struct CharacterPalette {
    pub head: Color,
    pub beak: Color,
    pub eye_white: Color,
    pub pupil: Color,
    pub torso: Color,
    pub hips: Color,
    pub arms: Color,
    pub hands: Color,
    pub legs: Color,
    pub feet: Color,
}

/// A colour given by its three channels.
pub open spec fn rgb(c: Color, r: u8, g: u8, b: u8) -> bool {
    c.r == r && c.g == g && c.b == b
}

impl CharacterPalette {
    /// The palette of the big walking character: red head and beak, white
    /// eyes with black pupils, a golden torso, arms and hands, and dark blue
    /// hips, legs and feet.
    pub fn big_walk() -> (p: Self)
        ensures
            rgb(p.head, 181, 70, 60),
            rgb(p.beak, 170, 61, 51),
            rgb(p.eye_white, 240, 240, 230),
            rgb(p.pupil, 12, 12, 12),
            rgb(p.torso, 218, 166, 48),
            rgb(p.hips, 39, 44, 91),
            rgb(p.arms, 218, 166, 48),
            rgb(p.hands, 218, 166, 48),
            rgb(p.legs, 31, 36, 76),
            rgb(p.feet, 31, 36, 76),
    {
        CharacterPalette {
            head: Color::new(181, 70, 60),
            beak: Color::new(170, 61, 51),
            eye_white: Color::new(240, 240, 230),
            pupil: Color::new(12, 12, 12),
            torso: Color::new(218, 166, 48),
            hips: Color::new(39, 44, 91),
            arms: Color::new(218, 166, 48),
            hands: Color::new(218, 166, 48),
            legs: Color::new(31, 36, 76),
            feet: Color::new(31, 36, 76),
        }
    }
}

/// The runs of a list of columns, read from left to right: each column that
/// is one more than the previous one extends the current run `(first, last)`,
/// any other column starts a new run.
pub open spec fn runs_of(columns: Seq<usize>) -> Seq<(usize, usize)>
    decreases columns.len(),
{
    if columns.len() == 0 {
        Seq::empty()
    } else {
        let before = runs_of(columns.drop_last());
        let column = columns.last();
        if before.len() > 0 && column == before.last().1 + 1 {
            before.update(before.len() - 1, (before.last().0, column))
        } else {
            before.push((column, column))
        }
    }
}

/// Groups columns into runs of consecutive values, as `(first, last)` pairs;
/// adjacent platform columns of a river lane make one log.
pub fn contiguous_runs(columns: &[usize]) -> (runs: Vec<(usize, usize)>)
    requires
        forall|i: int| 0 <= i < columns@.len() - 1 ==> columns@[i] < usize::MAX,
    ensures
        runs@ == runs_of(columns@),
{
    let mut runs: Vec<(usize, usize)> = Vec::new();
    if columns.len() == 0 {
        proof {
            assert(columns@ =~= Seq::<usize>::empty());
        }
        return runs;
    }
    let first = columns[0];
    let mut start = first;
    let mut end = first;
    proof {
        let one = columns@.subrange(0, 1);
        assert(one.drop_last() =~= Seq::<usize>::empty());
        assert(runs_of(one.drop_last()) == Seq::<(usize, usize)>::empty());
        assert(one.last() == first);
        assert(runs_of(one) =~= runs@.push((start, end)));
    }
    let mut i: usize = 1;
    while i < columns.len()
        invariant
            1 <= i <= columns@.len(),
            end == columns@[i - 1],
            forall|j: int| 0 <= j < columns@.len() - 1 ==> columns@[j] < usize::MAX,
            runs_of(columns@.subrange(0, i as int)) == runs@.push((start, end)),
        decreases columns@.len() - i,
    {
        let column = columns[i];
        proof {
            let next = columns@.subrange(0, i + 1);
            assert(next.drop_last() =~= columns@.subrange(0, i as int));
            assert(next.last() == column);
        }
        if column == end + 1 {
            proof {
                let before = runs@.push((start, end));
                assert(before.update(before.len() - 1, (start, column)) =~= runs@.push((start, column)));
            }
            end = column;
        } else {
            runs.push((start, end));
            start = column;
            end = column;
        }
        i = i + 1;
    }
    runs.push((start, end));
    proof {
        assert(columns@.subrange(0, columns@.len() as int) =~= columns@);
    }
    runs
}

/// The ground colour of a lane: three greens for grass, darker as the forest
/// thickens, grey-green for stone, blue for water.
pub open spec fn ground_rgb(section_kind: SectionKind, kind: LaneKind) -> (u8, u8, u8) {
    match (section_kind, kind) {
        (SectionKind::Forest(ForestSectionKind::Clearing), LaneKind::Grass) => (111, 177, 91),
        (SectionKind::Forest(ForestSectionKind::Grove), LaneKind::Grass) => (78, 145, 82),
        (SectionKind::Forest(ForestSectionKind::Thicket), LaneKind::Grass) => (58, 119, 72),
        (SectionKind::Forest(_), LaneKind::Stone) => (107, 123, 112),
        (SectionKind::River, LaneKind::Water) => (52, 129, 164),
        _ => (92, 145, 102),
    }
}

/// The colour of the obstacles of a lane, darker as the forest thickens.
pub open spec fn obstacle_rgb(section_kind: SectionKind) -> (u8, u8, u8) {
    match section_kind {
        SectionKind::Forest(ForestSectionKind::Clearing) => (166, 105, 62),
        SectionKind::Forest(ForestSectionKind::Grove) => (132, 82, 52),
        SectionKind::Forest(ForestSectionKind::Thicket) => (99, 68, 48),
        SectionKind::River => (137, 84, 48),
    }
}

/// The ground colour of a lane of the given section and lane kind.
pub fn ground_color(section_kind: SectionKind, kind: LaneKind) -> (c: Color)
    ensures
        (c.r, c.g, c.b) == ground_rgb(section_kind, kind),
{
    match (section_kind, kind) {
        (SectionKind::Forest(ForestSectionKind::Clearing), LaneKind::Grass) => Color::new(111, 177, 91),
        (SectionKind::Forest(ForestSectionKind::Grove), LaneKind::Grass) => Color::new(78, 145, 82),
        (SectionKind::Forest(ForestSectionKind::Thicket), LaneKind::Grass) => Color::new(58, 119, 72),
        (SectionKind::Forest(_), LaneKind::Stone) => Color::new(107, 123, 112),
        (SectionKind::River, LaneKind::Water) => Color::new(52, 129, 164),
        _ => Color::new(92, 145, 102),
    }
}

/// The colour of the obstacles of a lane of the given section kind.
pub fn obstacle_color(section_kind: SectionKind) -> (c: Color)
    ensures
        (c.r, c.g, c.b) == obstacle_rgb(section_kind),
{
    match section_kind {
        SectionKind::Forest(ForestSectionKind::Clearing) => Color::new(166, 105, 62),
        SectionKind::Forest(ForestSectionKind::Grove) => Color::new(132, 82, 52),
        SectionKind::Forest(ForestSectionKind::Thicket) => Color::new(99, 68, 48),
        SectionKind::River => Color::new(137, 84, 48),
    }
}

/// The colour of one ground tile: the lane colour on even columns, lightened
/// by 10 on odd ones, so that neighbouring tiles stand apart.
pub fn tile_color(base: Color, column: usize) -> (c: Color)
    ensures
        column % 2 == 0 ==> c == base,
        column % 2 == 1 ==> c.r == saturate_channel(base.r, 10) && c.g == saturate_channel(base.g, 10)
            && c.b == saturate_channel(base.b, 10),
{
    if column % 2 == 0 {
        base
    } else {
        tint(base, 10)
    }
}

/// The colour of the logs that float on a river.
pub fn log_color() -> (c: Color)
    ensures
        c.r == 137 && c.g == 84 && c.b == 48,
{
    Color::new(137, 84, 48)
}

/// Denser forests have darker obstacles: for two forest kinds, the denser
/// one's obstacle colour is darker in every channel, so the three kinds
/// get three different colours, lightest for clearings and darkest for
/// thickets: (166, 105, 62), (132, 82, 52) and (99, 68, 48).
pub proof fn lemma_obstacles_darken_with_density(thinner: ForestSectionKind, denser: ForestSectionKind)
    ensures
        forest_density(thinner) < forest_density(denser) ==> {
            let light = obstacle_rgb(SectionKind::Forest(thinner));
            let dark = obstacle_rgb(SectionKind::Forest(denser));
            &&& dark.0 < light.0
            &&& dark.1 < light.1
            &&& dark.2 < light.2
        },
        thinner != denser ==> obstacle_rgb(SectionKind::Forest(thinner)) != obstacle_rgb(
            SectionKind::Forest(denser),
        ),
        obstacle_rgb(SectionKind::Forest(ForestSectionKind::Clearing)) == (166u8, 105u8, 62u8),
        obstacle_rgb(SectionKind::Forest(ForestSectionKind::Grove)) == (132u8, 82u8, 52u8),
        obstacle_rgb(SectionKind::Forest(ForestSectionKind::Thicket)) == (99u8, 68u8, 48u8),
{
}

} // verus!
