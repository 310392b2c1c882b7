use vstd::prelude::*;
use crate::masks::{columns_mask, has_bit};

verus! {

/// Number of tile columns in every lane.
pub const TILE_COLUMNS: usize = 7;

#[derive(Clone, Copy, Debug, PartialEq, Eq, Structural)]
pub enum Environment {
    Forest,
    River,
}

#[derive(Clone, Copy, Debug, PartialEq, Eq, Structural)]
pub enum ForestSectionKind {
    Clearing,
    Grove,
    Thicket,
}

#[derive(Clone, Copy, Debug, PartialEq, Eq, Structural)]
pub enum SectionKind {
    Forest(ForestSectionKind),
    River,
}

#[derive(Clone, Copy, Debug, PartialEq, Eq, Structural)]
pub enum LaneKind {
    Grass,
    Stone,
    Water,
}

/// One row of the board: a forest row with obstacles on some columns, or a
/// river row whose player-carrying platforms stand on some columns.
#[derive(Debug)]
pub struct Lane {
    pub environment: Environment,
    pub section_kind: SectionKind,
    pub section_id: usize,
    pub kind: LaneKind,
    pub obstacle_columns: Vec<usize>,
    pub platform_columns: Vec<usize>,
}

/// The mathematical content of a lane.
pub struct LaneView {
    pub environment: Environment,
    pub section_kind: SectionKind,
    pub section_id: usize,
    pub kind: LaneKind,
    pub obstacles: Seq<usize>,
    pub platforms: Seq<usize>,
}

impl LaneView {
    /// The player may stand on `column`: a forest tile without an obstacle,
    /// or a river tile with a platform.
    pub open spec fn supports(self, column: int) -> bool {
        match self.environment {
            Environment::Forest => !self.obstacles.contains(column as usize),
            Environment::River => self.platforms.contains(column as usize),
        }
    }

    /// An obstacle on `column` keeps the player out.
    pub open spec fn blocks(self, column: int) -> bool {
        self.environment == Environment::Forest && self.obstacles.contains(column as usize)
    }

    /// Every obstacle column fits in an 8-bit mask.
    pub open spec fn obstacles_fit_mask(self) -> bool {
        forall|j: int| 0 <= j < self.obstacles.len() ==> self.obstacles[j] < 8
    }

    /// Every listed column lies on the board.
    pub open spec fn columns_on_board(self) -> bool {
        &&& forall|i: int| 0 <= i < self.obstacles.len() ==> self.obstacles[i] < TILE_COLUMNS
        &&& forall|i: int| 0 <= i < self.platforms.len() ==> self.platforms[i] < TILE_COLUMNS
    }

    /// The columns that define the lane's layout: obstacles in a forest,
    /// platforms on a river.
    pub open spec fn layout_columns(self) -> Seq<usize> {
        match self.environment {
            Environment::Forest => self.obstacles,
            Environment::River => self.platforms,
        }
    }
}

impl View for Lane {
    type V = LaneView;

    open spec fn view(&self) -> LaneView {
        LaneView {
            environment: self.environment,
            section_kind: self.section_kind,
            section_id: self.section_id,
            kind: self.kind,
            obstacles: self.obstacle_columns@,
            platforms: self.platform_columns@,
        }
    }
}

/// Each entry is smaller than the next.
pub open spec fn strictly_increasing(s: Seq<usize>) -> bool {
    forall|i: int, j: int| 0 <= i < j < s.len() ==> s[i] < s[j]
}

/// The views of a row of lanes.
pub open spec fn lane_views(lanes: Seq<Lane>) -> Seq<LaneView> {
    lanes.map_values(|lane: Lane| lane@)
}

/// Every column of every lane lies on the board.
pub open spec fn lanes_on_board(lanes: Seq<LaneView>) -> bool {
    forall|i: int| 0 <= i < lanes.len() ==> #[trigger] lanes[i].columns_on_board()
}

/// Whether every column of `columns` lies on the board.
fn all_on_board(columns: &Vec<usize>) -> (ok: bool)
    ensures
        ok == forall|i: int| 0 <= i < columns@.len() ==> columns@[i] < TILE_COLUMNS,
{
    let mut i: usize = 0;
    while i < columns.len()
        invariant
            i <= columns@.len(),
            forall|j: int| 0 <= j < i ==> columns@[j] < TILE_COLUMNS,
        decreases columns@.len() - i,
    {
        if columns[i] >= TILE_COLUMNS {
            return false;
        }
        i = i + 1;
    }
    true
}

impl Lane {
    /// Whether every obstacle and platform column of the lane lies on the
    /// board.
    pub fn is_on_board(&self) -> (ok: bool)
        ensures
            ok == self@.columns_on_board(),
    {
        let obstacles = all_on_board(&self.obstacle_columns);
        let platforms = all_on_board(&self.platform_columns);
        proof {
            if obstacles && platforms {
                assert(self@.columns_on_board());
            } else if !obstacles {
                let i = choose|i: int| 0 <= i < self.obstacle_columns@.len() && !(self.obstacle_columns@[i] < TILE_COLUMNS);
                assert(self@.obstacles[i] == self.obstacle_columns@[i]);
            } else {
                let i = choose|i: int| 0 <= i < self.platform_columns@.len() && !(self.platform_columns@[i] < TILE_COLUMNS);
                assert(self@.platforms[i] == self.platform_columns@[i]);
            }
        }
        obstacles && platforms
    }
}

/// Whether `columns` lists `column`.
pub fn contains_column(columns: &Vec<usize>, column: usize) -> (found: bool)
    ensures
        found == columns@.contains(column),
{
    let mut i: usize = 0;
    while i < columns.len()
        invariant
            i <= columns@.len(),
            forall|j: int| 0 <= j < i ==> columns@[j] != column,
        decreases columns@.len() - i,
    {
        if columns[i] == column {
            return true;
        }
        i = i + 1;
    }
    false
}

fn copy_columns(columns: &Vec<usize>) -> (copy: Vec<usize>)
    ensures
        copy@ == columns@,
{
    let mut copy: Vec<usize> = Vec::new();
    let mut i: usize = 0;
    while i < columns.len()
        invariant
            i <= columns@.len(),
            copy@ == columns@.subrange(0, i as int),
        decreases columns@.len() - i,
    {
        copy.push(columns[i]);
        i = i + 1;
    }
    proof {
        assert(columns@.subrange(0, columns@.len() as int) =~= columns@);
    }
    copy
}

impl Clone for Lane {
    fn clone(&self) -> (copy: Self)
        ensures
            copy@ == self@,
    {
        Lane {
            environment: self.environment,
            section_kind: self.section_kind,
            section_id: self.section_id,
            kind: self.kind,
            obstacle_columns: copy_columns(&self.obstacle_columns),
            platform_columns: copy_columns(&self.platform_columns),
        }
    }
}

impl Lane {
    /// Mask with bit `c` set exactly for the obstacle columns `c`.
    pub fn obstacle_mask(&self) -> (mask: u8)
        requires
            self@.obstacles_fit_mask(),
        ensures
            forall|c: int|
                0 <= c < 8 ==> (has_bit(mask, c) <==> self.obstacle_columns@.contains(c as usize)),
    {
        proof {
            assert forall|i: int| 0 <= i < self.obstacle_columns@.len() implies self.obstacle_columns@[i] < 8 by {
                assert(self@.obstacles[i] < 8);
            }
        }
        columns_mask(&self.obstacle_columns)
    }

    /// Mask of the layout columns: obstacles in a forest, platforms on a river.
    pub fn layout_mask(&self) -> (mask: u8)
        requires
            self@.columns_on_board(),
        ensures
            forall|c: int|
                0 <= c < 8 ==> (has_bit(mask, c) <==> self@.layout_columns().contains(c as usize)),
    {
        proof {
            assert forall|i: int| 0 <= i < self.obstacle_columns@.len() implies self.obstacle_columns@[i] < 8 by {
                assert(self@.obstacles[i] < TILE_COLUMNS);
            }
            assert forall|i: int| 0 <= i < self.platform_columns@.len() implies self.platform_columns@[i] < 8 by {
                assert(self@.platforms[i] < TILE_COLUMNS);
            }
        }
        match self.environment {
            Environment::Forest => columns_mask(&self.obstacle_columns),
            Environment::River => columns_mask(&self.platform_columns),
        }
    }

    /// An obstacle stands on `column`.
    pub fn blocks_movement(&self, column: usize) -> (blocked: bool)
        ensures
            blocked == self@.blocks(column as int),
    {
        match self.environment {
            Environment::Forest => contains_column(&self.obstacle_columns, column),
            Environment::River => false,
        }
    }

    /// The player can stand on `column`.
    pub fn supports_player(&self, column: usize) -> (supported: bool)
        ensures
            supported == self@.supports(column as int),
    {
        match self.environment {
            Environment::Forest => !contains_column(&self.obstacle_columns, column),
            Environment::River => contains_column(&self.platform_columns, column),
        }
    }
}

/// What a section looked like: its kind and the obstacle mask of each lane.
#[derive(Debug)]
pub struct SectionSignature {
    pub kind: SectionKind,
    pub lane_masks: Vec<u8>,
}

impl View for SectionSignature {
    type V = (SectionKind, Seq<u8>);

    open spec fn view(&self) -> (SectionKind, Seq<u8>) {
        (self.kind, self.lane_masks@)
    }
}

impl Clone for SectionSignature {
    fn clone(&self) -> (copy: Self)
        ensures
            copy@ == self@,
    {
        let mut masks: Vec<u8> = Vec::new();
        let mut i: usize = 0;
        while i < self.lane_masks.len()
            invariant
                i <= self.lane_masks@.len(),
                masks@ == self.lane_masks@.subrange(0, i as int),
            decreases self.lane_masks@.len() - i,
        {
            masks.push(self.lane_masks[i]);
            i = i + 1;
        }
        proof {
            assert(self.lane_masks@.subrange(0, self.lane_masks@.len() as int) =~= self.lane_masks@);
        }
        SectionSignature { kind: self.kind, lane_masks: masks }
    }
}

/// A group of consecutive lanes generated together, with its signature.
#[derive(Debug)]
pub struct Section {
    pub lanes: Vec<Lane>,
    pub signature: SectionSignature,
}

/// The views of a section: the views of its lanes and its signature.
pub open spec fn section_lane_views(section: Section) -> Seq<LaneView> {
    lane_views(section.lanes@)
}

impl Clone for Section {
    fn clone(&self) -> (copy: Self)
        ensures
            lane_views(copy.lanes@) == lane_views(self.lanes@),
            copy.signature@ == self.signature@,
    {
        let mut lanes: Vec<Lane> = Vec::new();
        let mut i: usize = 0;
        while i < self.lanes.len()
            invariant
                i <= self.lanes@.len(),
                lanes@.len() == i,
                forall|j: int| 0 <= j < i ==> (#[trigger] lanes@[j])@ == self.lanes@[j]@,
            decreases self.lanes@.len() - i,
        {
            lanes.push(self.lanes[i].clone());
            i = i + 1;
        }
        proof {
            assert(lane_views(lanes@) =~= lane_views(self.lanes@));
        }
        Section { lanes, signature: self.signature.clone() }
    }
}

/// The obstacle mask of each lane of a section is the signature's row.
pub open spec fn masks_match(lanes: Seq<LaneView>, masks: Seq<u8>) -> bool {
    &&& masks.len() == lanes.len()
    &&& forall|i: int, c: int|
        0 <= i < lanes.len() && 0 <= c < 8 ==> (#[trigger] has_bit(masks[i], c)
            <==> lanes[i].obstacles.contains(c as usize))
}

impl Section {
    /// Bundles lanes with their signature: the section kind and each lane's
    /// obstacle mask.
    pub fn new(lanes: Vec<Lane>, kind: SectionKind) -> (section: Self)
        requires
            forall|i: int| 0 <= i < lanes@.len() ==> (#[trigger] lanes@[i])@.obstacles_fit_mask(),
        ensures
            section.lanes@ == lanes@,
            section.signature.kind == kind,
            masks_match(lane_views(lanes@), section.signature.lane_masks@),
    {
        let mut lane_masks: Vec<u8> = Vec::new();
        let mut i: usize = 0;
        while i < lanes.len()
            invariant
                i <= lanes@.len(),
                forall|k: int| 0 <= k < lanes@.len() ==> (#[trigger] lanes@[k])@.obstacles_fit_mask(),
                lane_masks@.len() == i,
                forall|k: int, c: int|
                    0 <= k < i && 0 <= c < 8 ==> (#[trigger] has_bit(lane_masks@[k], c)
                        <==> lanes@[k].obstacle_columns@.contains(c as usize)),
            decreases lanes@.len() - i,
        {
            assert(lanes@[i as int]@.obstacles_fit_mask());
            let mask = lanes[i].obstacle_mask();
            lane_masks.push(mask);
            i = i + 1;
        }
        Self { lanes, signature: SectionSignature { kind, lane_masks } }
    }
}

} // verus!
