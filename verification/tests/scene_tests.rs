use creative_zone::color::Color;
use creative_zone::scene::{
    contiguous_runs, ground_color, log_color, obstacle_color, tile_color, CharacterPalette,
};
use creative_zone::world::{ForestSectionKind, LaneKind, SectionKind};

fn rgb(c: Color) -> (u8, u8, u8) {
    (c.r, c.g, c.b)
}

#[test]
fn adjacent_platform_columns_share_one_visual_log() {
    assert_eq!(contiguous_runs(&[0, 1, 3, 5, 6]), vec![(0, 1), (3, 3), (5, 6)]);
}

#[test]
fn runs_of_nothing_single_and_all_columns() {
    assert_eq!(contiguous_runs(&[]), Vec::<(usize, usize)>::new());
    assert_eq!(contiguous_runs(&[4]), vec![(4, 4)]);
    assert_eq!(contiguous_runs(&[0, 1, 2, 3, 4, 5, 6]), vec![(0, 6)]);
    assert_eq!(contiguous_runs(&[2, 4, 6]), vec![(2, 2), (4, 4), (6, 6)]);
}

#[test]
fn big_walk_palette_colours() {
    let p = CharacterPalette::big_walk();
    assert_eq!(rgb(p.head), (181, 70, 60));
    assert_eq!(rgb(p.beak), (170, 61, 51));
    assert_eq!(rgb(p.eye_white), (240, 240, 230));
    assert_eq!(rgb(p.pupil), (12, 12, 12));
    assert_eq!(rgb(p.torso), (218, 166, 48));
    assert_eq!(rgb(p.hips), (39, 44, 91));
    assert_eq!(rgb(p.arms), rgb(p.torso));
    assert_eq!(rgb(p.hands), rgb(p.torso));
    assert_eq!(rgb(p.legs), (31, 36, 76));
    assert_eq!(rgb(p.feet), rgb(p.legs));
}

#[test]
fn lane_colours_darken_with_the_forest() {
    let clearing = ground_color(SectionKind::Forest(ForestSectionKind::Clearing), LaneKind::Grass);
    let grove = ground_color(SectionKind::Forest(ForestSectionKind::Grove), LaneKind::Grass);
    let thicket = ground_color(SectionKind::Forest(ForestSectionKind::Thicket), LaneKind::Grass);
    assert_eq!(rgb(clearing), (111, 177, 91));
    assert_eq!(rgb(grove), (78, 145, 82));
    assert_eq!(rgb(thicket), (58, 119, 72));
    assert_eq!(rgb(ground_color(SectionKind::Forest(ForestSectionKind::Grove), LaneKind::Stone)), (107, 123, 112));
    assert_eq!(rgb(ground_color(SectionKind::River, LaneKind::Water)), (52, 129, 164));
    assert_eq!(rgb(ground_color(SectionKind::River, LaneKind::Grass)), (92, 145, 102));
    assert_eq!(rgb(obstacle_color(SectionKind::Forest(ForestSectionKind::Clearing))), (166, 105, 62));
    assert_eq!(rgb(obstacle_color(SectionKind::Forest(ForestSectionKind::Thicket))), (99, 68, 48));
    assert_eq!(rgb(obstacle_color(SectionKind::River)), rgb(log_color()));
}

#[test]
fn odd_tiles_are_lighter() {
    let base = Color::new(250, 100, 0);
    assert_eq!(rgb(tile_color(base, 2)), (250, 100, 0));
    assert_eq!(rgb(tile_color(base, 3)), (255, 110, 10));
}
