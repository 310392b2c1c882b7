use vstd::prelude::*;
use crate::world::{Lane, LaneView, TILE_COLUMNS, lane_views};

verus! {

/// Tile `(lane, column)` is on the board and the player can stand on it.
pub open spec fn open_tile(lanes: Seq<LaneView>, lane: int, column: int) -> bool {
    &&& 0 <= lane < lanes.len()
    &&& 0 <= column < TILE_COLUMNS
    &&& lanes[lane].supports(column)
}

/// Every column of one lane between `a` and `b` (inclusive, either order)
/// is on the board and can carry the player.
pub open spec fn lane_run_open(lane: LaneView, a: int, b: int) -> bool {
    forall|k: int|
        between(a, b, k) ==> 0 <= k < TILE_COLUMNS && #[trigger] lane.supports(k)
}

/// `k` lies between `a` and `b` (inclusive, either order).
pub open spec fn between(a: int, b: int, k: int) -> bool {
    if a <= b {
        a <= k <= b
    } else {
        b <= k <= a
    }
}

/// The player can walk sideways from column `a` to column `b` of `lane`.
pub open spec fn open_run(lanes: Seq<LaneView>, lane: int, a: int, b: int) -> bool {
    0 <= lane < lanes.len() && lane_run_open(lanes[lane], a, b)
}

/// Which columns of `lane` the player can reach from
/// `(start_lane, start_column)` by steps to the next lane (index - 1) or to a
/// neighbouring column, standing only on open tiles: on the start lane, the
/// open run around the start column; on an earlier lane, the open runs around
/// columns entered from a reachable tile of the lane behind it.
pub open spec fn reach_row(lanes: Seq<LaneView>, start_lane: int, start_column: int, lane: int) -> Seq<
    bool,
>
    decreases start_lane - lane,
{
    if lane > start_lane || lane < 0 {
        Seq::new(TILE_COLUMNS as nat, |c: int| false)
    } else if lane == start_lane {
        Seq::new(TILE_COLUMNS as nat, |c: int| open_run(lanes, lane, start_column, c))
    } else {
        let behind = reach_row(lanes, start_lane, start_column, lane + 1);
        Seq::new(
            TILE_COLUMNS as nat,
            |c: int| lane < lanes.len() && entered_from(behind, lanes[lane], c),
        )
    }
}

/// Tile `(lane, column)` can be reached from `(start_lane, start_column)`.
pub open spec fn reachable(
    lanes: Seq<LaneView>,
    start_lane: int,
    start_column: int,
    lane: int,
    column: int,
) -> bool {
    0 <= column < TILE_COLUMNS && reach_row(lanes, start_lane, start_column, lane)[column]
}

/// Some tile of `lane` can be reached from `(start_lane, start_column)`.
pub open spec fn path_exists(lanes: Seq<LaneView>, start_lane: int, start_column: int, lane: int) -> bool {
    exists|c: int| #[trigger] reachable(lanes, start_lane, start_column, lane, c)
}

/// Whether every tile of `lane` between columns `a` and `b` can carry the player.
pub fn run_is_open(lane: &Lane, a: usize, b: usize) -> (open: bool)
    ensures
        open == lane_run_open(lane@, a as int, b as int),
{
    let low = if a <= b {
        a
    } else {
        b
    };
    let high = if a <= b {
        b
    } else {
        a
    };
    if high >= TILE_COLUMNS {
        proof {
            let k = high as int;
            if lane_run_open(lane@, a as int, b as int) {
                assert(between(a as int, b as int, k));
                assert(lane@.supports(k));
                assert(0 <= k < TILE_COLUMNS);
            }
        }
        return false;
    }
    let mut k = low;
    while k <= high
        invariant
            low <= k <= high + 1,
            high < TILE_COLUMNS,
            low == (if a <= b { a } else { b }),
            high == (if a <= b { b } else { a }),
            forall|j: int| low <= j < k ==> lane@.supports(j),
        decreases high + 1 - k,
    {
        if !lane.supports_player(k) {
            return false;
        }
        k = k + 1;
    }
    true
}

/// Columns of the start lane reachable from the start column.
fn start_row(lane: &Lane, start_column: usize) -> (row: Vec<bool>)
    ensures
        row@.len() == TILE_COLUMNS,
        forall|c: int| 0 <= c < TILE_COLUMNS ==> row@[c] == lane_run_open(lane@, start_column as int, c),
{
    let mut row: Vec<bool> = Vec::new();
    let mut c: usize = 0;
    while c < TILE_COLUMNS
        invariant
            c <= TILE_COLUMNS,
            row@.len() == c,
            forall|d: int| 0 <= d < c ==> row@[d] == lane_run_open(lane@, start_column as int, d),
        decreases TILE_COLUMNS - c,
    {
        let open = run_is_open(lane, start_column, c);
        row.push(open);
        c = c + 1;
    }
    row
}

/// Column `column` of `lane` is reached by entering the lane from some
/// column marked in `behind` and walking sideways.
pub open spec fn entered_from(behind: Seq<bool>, lane: LaneView, column: int) -> bool {
    exists|s: int| 0 <= s < TILE_COLUMNS && #[trigger] behind[s] && lane_run_open(lane, s, column)
}

/// Columns of `lane` reachable from the marked columns of the lane behind it.
fn next_row(lane: &Lane, behind: &Vec<bool>) -> (row: Vec<bool>)
    requires
        behind@.len() == TILE_COLUMNS,
    ensures
        row@.len() == TILE_COLUMNS,
        forall|c: int| 0 <= c < TILE_COLUMNS ==> row@[c] == entered_from(behind@, lane@, c),
{
    let mut row: Vec<bool> = Vec::new();
    let mut c: usize = 0;
    while c < TILE_COLUMNS
        invariant
            c <= TILE_COLUMNS,
            behind@.len() == TILE_COLUMNS,
            row@.len() == c,
            forall|d: int| 0 <= d < c ==> row@[d] == entered_from(behind@, lane@, d),
        decreases TILE_COLUMNS - c,
    {
        let mut found = false;
        let mut s: usize = 0;
        while s < TILE_COLUMNS
            invariant
                s <= TILE_COLUMNS,
                c < TILE_COLUMNS,
                behind@.len() == TILE_COLUMNS,
                found == exists|t: int|
                    0 <= t < s && #[trigger] behind@[t] && lane_run_open(lane@, t, c as int),
            decreases TILE_COLUMNS - s,
        {
            if behind[s] && run_is_open(lane, s, c) {
                found = true;
            }
            s = s + 1;
        }
        row.push(found);
        c = c + 1;
    }
    row
}


proof fn lemma_run_contains_ends(lane: LaneView, a: int, b: int)
    requires
        lane_run_open(lane, a, b),
    ensures
        0 <= a < TILE_COLUMNS && lane.supports(a),
        0 <= b < TILE_COLUMNS && lane.supports(b),
{
    assert(between(a, b, a));
    assert(lane.supports(a));
    assert(between(a, b, b));
    assert(lane.supports(b));
}

/// Nothing is reachable from a start tile the player cannot stand on.
proof fn lemma_closed_start(lanes: Seq<LaneView>, sl: int, sc: int, l: int, c: int)
    requires
        !open_tile(lanes, sl, sc),
    ensures
        !reachable(lanes, sl, sc, l, c),
    decreases sl - l,
{
    if l == sl && 0 <= l && 0 <= c < TILE_COLUMNS {
        if open_run(lanes, l, sc, c) {
            lemma_run_contains_ends(lanes[l], sc, c);
        }
    } else if 0 <= l < sl && 0 <= c < TILE_COLUMNS {
        if reachable(lanes, sl, sc, l, c) {
            let behind = reach_row(lanes, sl, sc, l + 1);
            let s = choose|s: int|
                0 <= s < TILE_COLUMNS && #[trigger] behind[s] && lane_run_open(lanes[l], s, c);
            lemma_closed_start(lanes, sl, sc, l + 1, s);
        }
    }
}

/// A reachable tile is an open tile.
pub proof fn lemma_reachable_is_open(lanes: Seq<LaneView>, sl: int, sc: int, l: int, c: int)
    requires
        reachable(lanes, sl, sc, l, c),
    ensures
        open_tile(lanes, l, c),
{
    if l == sl {
        lemma_run_contains_ends(lanes[l], sc, c);
    } else {
        let behind = reach_row(lanes, sl, sc, l + 1);
        let s = choose|s: int|
            0 <= s < TILE_COLUMNS && #[trigger] behind[s] && lane_run_open(lanes[l], s, c);
        lemma_run_contains_ends(lanes[l], s, c);
    }
}

proof fn lemma_next_row(lanes: Seq<LaneView>, sl: int, sc: int, l: int, behind: Seq<bool>)
    requires
        0 <= l < sl,
        l < lanes.len(),
        behind.len() == TILE_COLUMNS,
        forall|s: int| 0 <= s < TILE_COLUMNS ==> behind[s] == reachable(lanes, sl, sc, l + 1, s),
    ensures
        forall|c: int|
            0 <= c < TILE_COLUMNS ==> entered_from(behind, lanes[l], c) == reachable(
                lanes,
                sl,
                sc,
                l,
                c,
            ),
{
    let prev = reach_row(lanes, sl, sc, l + 1);
    assert(behind =~= prev);
}

fn closed_row() -> (row: Vec<bool>)
    ensures
        row@.len() == TILE_COLUMNS,
        forall|c: int| 0 <= c < TILE_COLUMNS ==> !row@[c],
{
    let mut row: Vec<bool> = Vec::new();
    let mut c: usize = 0;
    while c < TILE_COLUMNS
        invariant
            c <= TILE_COLUMNS,
            row@.len() == c,
            forall|d: int| 0 <= d < c ==> !row@[d],
        decreases TILE_COLUMNS - c,
    {
        row.push(false);
        c = c + 1;
    }
    row
}

/// For every tile of the board, whether the player can reach it from the
/// start tile.
pub fn reachable_tiles(lanes: &[Lane], start_lane: usize, start_column: usize) -> (visited: Vec<
    Vec<bool>,
>)
    ensures
        visited@.len() == lanes@.len(),
        forall|l: int| 0 <= l < visited@.len() ==> (#[trigger] visited@[l])@.len() == TILE_COLUMNS,
        forall|l: int, c: int|
            0 <= l < visited@.len() && 0 <= c < TILE_COLUMNS ==> #[trigger] visited@[l]@[c]
                == reachable(lane_views(lanes@), start_lane as int, start_column as int, l, c),
{
    let ghost lv = lane_views(lanes@);
    let n = lanes.len();
    let mut grid: Vec<Vec<bool>> = Vec::new();
    if start_lane >= n || start_column >= TILE_COLUMNS || !lanes[start_lane].supports_player(
        start_column,
    ) {
        proof {
            assert(!open_tile(lv, start_lane as int, start_column as int));
        }
        while grid.len() < n
            invariant
                grid@.len() <= n,
                n == lanes@.len(),
                lv == lane_views(lanes@),
                !open_tile(lv, start_lane as int, start_column as int),
                forall|l: int| 0 <= l < grid@.len() ==> (#[trigger] grid@[l])@.len() == TILE_COLUMNS,
                forall|l: int, c: int|
                    0 <= l < grid@.len() && 0 <= c < TILE_COLUMNS ==> #[trigger] grid@[l]@[c]
                        == reachable(lv, start_lane as int, start_column as int, l, c),
            decreases n - grid@.len(),
        {
            let row = closed_row();
            proof {
                assert forall|c: int| 0 <= c < TILE_COLUMNS implies !reachable(
                    lv,
                    start_lane as int,
                    start_column as int,
                    grid@.len() as int,
                    c,
                ) by {
                    lemma_closed_start(lv, start_lane as int, start_column as int, grid@.len() as int, c);
                }
            }
            grid.push(row);
        }
        return grid;
    }
    while grid.len() < n - 1 - start_lane
        invariant
            start_lane < n,
            n == lanes@.len(),
            grid@.len() <= n - 1 - start_lane,
            forall|l: int| 0 <= l < grid@.len() ==> (#[trigger] grid@[l])@.len() == TILE_COLUMNS,
            forall|l: int, c: int|
                0 <= l < grid@.len() && 0 <= c < TILE_COLUMNS ==> !#[trigger] grid@[l]@[c],
        decreases n - 1 - start_lane - grid@.len(),
    {
        grid.push(closed_row());
    }
    let mut row = start_row(&lanes[start_lane], start_column);
    proof {
        assert(lanes@[start_lane as int]@ == lv[start_lane as int]);
        assert forall|l: int, c: int|
            0 <= l < grid@.len() && 0 <= c < TILE_COLUMNS implies #[trigger] grid@[l]@[c]
            == reachable(lv, start_lane as int, start_column as int, start_lane + 1 + l, c) by {}
    }
    let mut lane = start_lane;
    while lane > 0
        invariant
            lane <= start_lane < n,
            n == lanes@.len(),
            lv == lane_views(lanes@),
            grid@.len() == n - 1 - lane,
            row@.len() == TILE_COLUMNS,
            forall|c: int|
                0 <= c < TILE_COLUMNS ==> row@[c] == reachable(
                    lv,
                    start_lane as int,
                    start_column as int,
                    lane as int,
                    c,
                ),
            forall|l: int| 0 <= l < grid@.len() ==> (#[trigger] grid@[l])@.len() == TILE_COLUMNS,
            forall|l: int, c: int|
                0 <= l < grid@.len() && 0 <= c < TILE_COLUMNS ==> #[trigger] grid@[l]@[c]
                    == reachable(lv, start_lane as int, start_column as int, lane + 1 + l, c),
        decreases lane,
    {
        let next = next_row(&lanes[lane - 1], &row);
        proof {
            assert(lanes@[lane - 1]@ == lv[lane - 1]);
            lemma_next_row(lv, start_lane as int, start_column as int, lane - 1, row@);
        }
        let ghost before = grid@;
        grid.insert(0, row);
        proof {
            assert forall|l: int, c: int|
                0 <= l < grid@.len() && 0 <= c < TILE_COLUMNS implies #[trigger] grid@[l]@[c]
                == reachable(lv, start_lane as int, start_column as int, lane + l, c) by {
                if l > 0 {
                    assert(grid@[l] == before[l - 1]);
                }
            }
        }
        row = next;
        lane = lane - 1;
    }
    grid.insert(0, row);
    grid
}


/// Columns of lane `target_lane` that the player can reach from the start
/// tile, in increasing order; none when the lane is off the board.
pub fn reachable_columns_at_lane(
    lanes: &[Lane],
    start_lane: usize,
    start_column: usize,
    target_lane: usize,
) -> (columns: Vec<usize>)
    ensures
        forall|i: int, j: int| 0 <= i < j < columns@.len() ==> columns@[i] < columns@[j],
        forall|x: usize|
            columns@.contains(x) <==> reachable(
                lane_views(lanes@),
                start_lane as int,
                start_column as int,
                target_lane as int,
                x as int,
            ),
{
    let ghost lv = lane_views(lanes@);
    let visited = reachable_tiles(lanes, start_lane, start_column);
    let mut columns: Vec<usize> = Vec::new();
    if target_lane >= visited.len() {
        proof {
            assert forall|x: usize| !reachable(lv, start_lane as int, start_column as int, target_lane as int, x as int) by {
                if reachable(lv, start_lane as int, start_column as int, target_lane as int, x as int) {
                    lemma_reachable_is_open(lv, start_lane as int, start_column as int, target_lane as int, x as int);
                }
            }
        }
        return columns;
    }
    let row = &visited[target_lane];
    let mut c: usize = 0;
    while c < TILE_COLUMNS
        invariant
            c <= TILE_COLUMNS,
            target_lane < visited@.len(),
            *row == visited@[target_lane as int],
            row@.len() == TILE_COLUMNS,
            forall|d: int|
                0 <= d < TILE_COLUMNS ==> row@[d] == reachable(
                    lv,
                    start_lane as int,
                    start_column as int,
                    target_lane as int,
                    d,
                ),
            forall|i: int, j: int| 0 <= i < j < columns@.len() ==> columns@[i] < columns@[j],
            forall|i: int| 0 <= i < columns@.len() ==> columns@[i] < c,
            forall|x: usize|
                columns@.contains(x) <==> (x < c && reachable(
                    lv,
                    start_lane as int,
                    start_column as int,
                    target_lane as int,
                    x as int,
                )),
        decreases TILE_COLUMNS - c,
    {
        let ghost before = columns@;
        let here = row[c];
        proof {
            assert(here == reachable(lv, start_lane as int, start_column as int, target_lane as int, c as int));
        }
        if here {
            columns.push(c);
        }
        proof {
            assert forall|x: usize| columns@.contains(x) <==> (x < c + 1 && reachable(
                lv,
                start_lane as int,
                start_column as int,
                target_lane as int,
                x as int,
            )) by {
                if here && x == c {
                    assert(columns@[before.len() as int] == c);
                } else {
                    if columns@.contains(x) {
                        let w = choose|w: int| 0 <= w < columns@.len() && columns@[w] == x;
                        if w < before.len() {
                            assert(before[w] == x);
                        }
                    }
                    if before.contains(x) {
                        let w = choose|w: int| 0 <= w < before.len() && before[w] == x;
                        assert(columns@[w] == x);
                    }
                }
            }
        }
        c = c + 1;
    }
    proof {
        assert forall|x: usize| reachable(lv, start_lane as int, start_column as int, target_lane as int, x as int) implies x < TILE_COLUMNS by {}
    }
    columns
}

/// Whether some tile of lane `target_lane` is reachable from the start tile.
pub fn has_path(lanes: &[Lane], start_lane: usize, start_column: usize, target_lane: usize) -> (found: bool)
    ensures
        found == exists|c: int|
            #[trigger] reachable(
                lane_views(lanes@),
                start_lane as int,
                start_column as int,
                target_lane as int,
                c,
            ),
{
    let columns = reachable_columns_at_lane(lanes, start_lane, start_column, target_lane);
    let found = columns.len() != 0;
    proof {
        let lv = lane_views(lanes@);
        if found {
            assert(columns@.contains(columns@[0]));
        }
        if exists|c: int| #[trigger] reachable(lv, start_lane as int, start_column as int, target_lane as int, c) {
            let c = choose|c: int| #[trigger] reachable(lv, start_lane as int, start_column as int, target_lane as int, c);
            assert(columns@.contains(c as usize));
        }
    }
    found
}

/// A reachable tile lies on an open start tile.
pub proof fn lemma_reachable_start_open(lanes: Seq<LaneView>, sl: int, sc: int, l: int, c: int)
    requires
        reachable(lanes, sl, sc, l, c),
    ensures
        open_tile(lanes, sl, sc),
    decreases sl - l,
{
    if !open_tile(lanes, sl, sc) {
        lemma_closed_start(lanes, sl, sc, l, c);
    }
}

/// Some tile of the section's first lane (its last in the list, the one the
/// player meets first) leads to a tile of its last lane.
pub open spec fn section_crossing(lanes: Seq<LaneView>) -> bool {
    exists|c: int, d: int| #[trigger] reachable(lanes.reverse(), lanes.len() - 1, c, 0, d)
}

/// Whether the player can cross a section, entering it from its first lane.
pub fn section_has_crossing(lanes: &[Lane]) -> (crossing: bool)
    requires
        lanes@.len() > 0,
    ensures
        crossing == section_crossing(lane_views(lanes@)),
{
    let ghost lv = lane_views(lanes@);
    let n = lanes.len();
    let mut ordered: Vec<Lane> = Vec::new();
    while ordered.len() < n
        invariant
            ordered@.len() <= n,
            n == lanes@.len(),
            forall|i: int| 0 <= i < ordered@.len() ==> (#[trigger] ordered@[i])@ == lanes@[n - 1 - i]@,
        decreases n - ordered@.len(),
    {
        let lane = lanes[n - 1 - ordered.len()].clone();
        ordered.push(lane);
    }
    let ghost rv = lane_views(ordered@);
    proof {
        assert(rv =~= lv.reverse());
    }
    let last = n - 1;
    let mut column: usize = 0;
    while column < TILE_COLUMNS
        invariant
            column <= TILE_COLUMNS,
            n == lanes@.len(),
            n > 0,
            last == n - 1,
            ordered@.len() == n,
            rv == lane_views(ordered@),
            rv == lv.reverse(),
            lv == lane_views(lanes@),
            forall|c: int, d: int| 0 <= c < column ==> !reachable(rv, last as int, c, 0, d),
        decreases TILE_COLUMNS - column,
    {
        if ordered[last].supports_player(column) && has_path(&ordered, last, column, 0) {
            proof {
                let d = choose|d: int| #[trigger] reachable(rv, last as int, column as int, 0, d);
                assert(lv.len() == n);
                assert(reachable(lv.reverse(), lv.len() - 1, column as int, 0, d));
            }
            return true;
        }
        proof {
            assert forall|d: int| !reachable(rv, last as int, column as int, 0, d) by {
                if reachable(rv, last as int, column as int, 0, d) {
                    lemma_reachable_start_open(rv, last as int, column as int, 0, d);
                    assert(ordered@[last as int]@ == rv[last as int]);
                }
            }
        }
        column = column + 1;
    }
    proof {
        assert forall|c: int, d: int| !reachable(rv, last as int, c, 0, d) by {
            if reachable(rv, last as int, c, 0, d) {
                lemma_reachable_start_open(rv, last as int, c, 0, d);
            }
        }
    }
    false
}

/// The tiles one step ahead of `(lane, column)`, in the order the search
/// visits them: the next lane (index - 1), then left, then right.
pub open spec fn forward_neighbor_list(lane: usize, column: usize) -> Seq<(usize, usize)> {
    (if lane > 0 {
        seq![((lane - 1) as usize, column)]
    } else {
        Seq::empty()
    }) + (if column > 0 {
        seq![(lane, (column - 1) as usize)]
    } else {
        Seq::empty()
    }) + (if column + 1 < TILE_COLUMNS {
        seq![(lane, (column + 1) as usize)]
    } else {
        Seq::empty()
    })
}

/// The tiles one forward step away from `(lane, column)`.
pub fn forward_neighbors(lane: usize, column: usize) -> (neighbors: Vec<(usize, usize)>)
    requires
        column < usize::MAX,
    ensures
        neighbors@ == forward_neighbor_list(lane, column),
{
    let mut neighbors: Vec<(usize, usize)> = Vec::new();
    if lane > 0 {
        neighbors.push((lane - 1, column));
    }
    if column > 0 {
        neighbors.push((lane, column - 1));
    }
    if column + 1 < TILE_COLUMNS {
        neighbors.push((lane, column + 1));
    }
    assert(neighbors@ =~= forward_neighbor_list(lane, column));
    neighbors
}


/// Distance between two columns.
pub open spec fn abs_diff(a: int, b: int) -> nat {
    if a <= b {
        (b - a) as nat
    } else {
        (a - b) as nat
    }
}

/// The smaller of two optional costs, a missing cost counting as infinite.
pub open spec fn min_cost(a: Option<nat>, b: Option<nat>) -> Option<nat> {
    match (a, b) {
        (None, _) => b,
        (_, None) => a,
        (Some(x), Some(y)) => Some(if x <= y { x } else { y }),
    }
}

/// Cost of reaching `column` of `lane` by entering it at column `s`, whose
/// cost in the lane behind is `behind`, and walking sideways.
pub open spec fn entry_step(behind: Option<nat>, lane: LaneView, s: int, column: int) -> Option<nat> {
    if lane_run_open(lane, s, column) {
        match behind {
            Some(d) => Some(d + abs_diff(s, column)),
            None => None,
        }
    } else {
        None
    }
}

/// Cheapest way to reach `column` of `lane` entering it at a column below `k`.
pub open spec fn entry_cost(behind: Seq<Option<nat>>, lane: LaneView, column: int, k: int) -> Option<
    nat,
>
    decreases k,
{
    if k <= 0 {
        None
    } else {
        min_cost(entry_cost(behind, lane, column, k - 1), entry_step(behind[k - 1], lane, k - 1, column))
    }
}

/// For each column of `lane`, the fewest sideways steps on a path from the
/// start tile to it (None when it cannot be reached). Steps to the next lane
/// are free.
pub open spec fn cost_row(lanes: Seq<LaneView>, start_lane: int, start_column: int, lane: int) -> Seq<
    Option<nat>,
>
    decreases start_lane - lane,
{
    if lane > start_lane || lane < 0 {
        Seq::new(TILE_COLUMNS as nat, |c: int| None)
    } else if lane == start_lane {
        Seq::new(
            TILE_COLUMNS as nat,
            |c: int|
                if open_run(lanes, lane, start_column, c) {
                    Some(abs_diff(start_column, c))
                } else {
                    None
                },
        )
    } else {
        let behind = cost_row(lanes, start_lane, start_column, lane + 1);
        Seq::new(
            TILE_COLUMNS as nat,
            |c: int|
                if lane < lanes.len() {
                    entry_cost(behind, lanes[lane], c, TILE_COLUMNS as int)
                } else {
                    None
                },
        )
    }
}

/// Cheapest entry among the first `k` columns of a row of costs.
pub open spec fn row_minimum(row: Seq<Option<nat>>, k: int) -> Option<nat>
    decreases k,
{
    if k <= 0 {
        None
    } else {
        min_cost(row_minimum(row, k - 1), row[k - 1])
    }
}

/// Fewest sideways steps needed to get from the start tile to any tile of
/// `target_lane`; None when no tile of it can be reached.
pub open spec fn fewest_lateral_moves(
    lanes: Seq<LaneView>,
    start_lane: int,
    start_column: int,
    target_lane: int,
) -> Option<nat> {
    row_minimum(cost_row(lanes, start_lane, start_column, target_lane), TILE_COLUMNS as int)
}

/// An optional machine integer as an optional natural number.
pub open spec fn opt_nat(o: Option<usize>) -> Option<nat> {
    match o {
        Some(d) => Some(d as nat),
        None => None,
    }
}

/// A row of optional machine integers as optional natural numbers.
pub open spec fn opt_nats(row: Seq<Option<usize>>) -> Seq<Option<nat>> {
    row.map_values(|o: Option<usize>| opt_nat(o))
}

/// Every cost of the row is at most `bound`.
pub open spec fn costs_at_most(row: Seq<Option<nat>>, bound: int) -> bool {
    forall|c: int| 0 <= c < row.len() ==> match #[trigger] row[c] {
        Some(d) => d <= bound,
        None => true,
    }
}

proof fn lemma_entry_cost_bound(behind: Seq<Option<nat>>, lane: LaneView, column: int, k: int, bound: int)
    requires
        behind.len() == TILE_COLUMNS,
        k <= TILE_COLUMNS,
        costs_at_most(behind, bound),
        0 <= column < TILE_COLUMNS,
    ensures
        match entry_cost(behind, lane, column, k) {
            Some(d) => d <= bound + 6,
            None => true,
        },
    decreases k,
{
    if k > 0 {
        lemma_entry_cost_bound(behind, lane, column, k - 1, bound);
        let b = behind[k - 1];
    }
}

fn min_option(a: Option<usize>, b: Option<usize>) -> (m: Option<usize>)
    ensures
        opt_nat(m) == min_cost(opt_nat(a), opt_nat(b)),
{
    match (a, b) {
        (None, _) => b,
        (_, None) => a,
        (Some(x), Some(y)) => Some(if x <= y { x } else { y }),
    }
}

fn start_cost_row(lane: &Lane, start_column: usize) -> (row: Vec<Option<usize>>)
    requires
        start_column < TILE_COLUMNS,
    ensures
        row@.len() == TILE_COLUMNS,
        forall|c: int|
            0 <= c < TILE_COLUMNS ==> opt_nat(#[trigger] row@[c]) == (if lane_run_open(
                lane@,
                start_column as int,
                c,
            ) {
                Some(abs_diff(start_column as int, c))
            } else {
                None
            }),
        costs_at_most(opt_nats(row@), 6),
{
    let mut row: Vec<Option<usize>> = Vec::new();
    let mut c: usize = 0;
    while c < TILE_COLUMNS
        invariant
            c <= TILE_COLUMNS,
            start_column < TILE_COLUMNS,
            row@.len() == c,
            forall|d: int|
                0 <= d < c ==> opt_nat(#[trigger] row@[d]) == (if lane_run_open(
                    lane@,
                    start_column as int,
                    d,
                ) {
                    Some(abs_diff(start_column as int, d))
                } else {
                    None
                }),
            forall|d: int| 0 <= d < c ==> match #[trigger] row@[d] {
                Some(x) => x <= 6,
                None => true,
            },
        decreases TILE_COLUMNS - c,
    {
        let entry = if run_is_open(lane, start_column, c) {
            Some(if start_column <= c { c - start_column } else { start_column - c })
        } else {
            None
        };
        row.push(entry);
        c = c + 1;
    }
    row
}

fn next_cost_row(lane: &Lane, behind: &Vec<Option<usize>>, Ghost(bound): Ghost<int>) -> (row: Vec<
    Option<usize>,
>)
    requires
        behind@.len() == TILE_COLUMNS,
        0 <= bound,
        bound + 6 <= usize::MAX,
        costs_at_most(opt_nats(behind@), bound),
    ensures
        row@.len() == TILE_COLUMNS,
        forall|c: int|
            0 <= c < TILE_COLUMNS ==> opt_nat(#[trigger] row@[c]) == entry_cost(
                opt_nats(behind@),
                lane@,
                c,
                TILE_COLUMNS as int,
            ),
        costs_at_most(opt_nats(row@), bound + 6),
{
    let ghost prev = opt_nats(behind@);
    let mut row: Vec<Option<usize>> = Vec::new();
    let mut c: usize = 0;
    while c < TILE_COLUMNS
        invariant
            c <= TILE_COLUMNS,
            behind@.len() == TILE_COLUMNS,
            prev == opt_nats(behind@),
            0 <= bound,
            bound + 6 <= usize::MAX,
            costs_at_most(prev, bound),
            row@.len() == c,
            forall|d: int|
                0 <= d < c ==> opt_nat(#[trigger] row@[d]) == entry_cost(
                    prev,
                    lane@,
                    d,
                    TILE_COLUMNS as int,
                ),
            forall|d: int| 0 <= d < c ==> match #[trigger] row@[d] {
                Some(x) => x <= bound + 6,
                None => true,
            },
        decreases TILE_COLUMNS - c,
    {
        let mut best: Option<usize> = None;
        let mut s: usize = 0;
        while s < TILE_COLUMNS
            invariant
                s <= TILE_COLUMNS,
                c < TILE_COLUMNS,
                behind@.len() == TILE_COLUMNS,
                prev == opt_nats(behind@),
                0 <= bound,
                bound + 6 <= usize::MAX,
                costs_at_most(prev, bound),
                opt_nat(best) == entry_cost(prev, lane@, c as int, s as int),
            decreases TILE_COLUMNS - s,
        {
            proof {
                lemma_entry_cost_bound(prev, lane@, c as int, s as int, bound);
                assert(prev[s as int] == opt_nat(behind@[s as int]));
            }
            let step = match behind[s] {
                Some(d) => {
                    if run_is_open(lane, s, c) {
                        assert(d <= bound) by {
                            assert(match prev[s as int] {
                                Some(x) => x <= bound,
                                None => true,
                            });
                        }
                        Some(d + if s <= c { c - s } else { s - c })
                    } else {
                        None
                    }
                },
                None => None,
            };
            best = min_option(best, step);
            s = s + 1;
        }
        proof {
            lemma_entry_cost_bound(prev, lane@, c as int, TILE_COLUMNS as int, bound);
        }
        row.push(best);
        c = c + 1;
    }
    row
}


proof fn lemma_entry_cost_none(behind: Seq<Option<nat>>, lane: LaneView, column: int, k: int)
    requires
        forall|s: int| 0 <= s < k ==> behind[s] is None,
    ensures
        entry_cost(behind, lane, column, k) is None,
    decreases k,
{
    if k > 0 {
        lemma_entry_cost_none(behind, lane, column, k - 1);
    }
}

proof fn lemma_closed_start_costs(lanes: Seq<LaneView>, sl: int, sc: int, l: int)
    requires
        !open_tile(lanes, sl, sc),
    ensures
        forall|c: int| 0 <= c < TILE_COLUMNS ==> cost_row(lanes, sl, sc, l)[c] is None,
    decreases sl - l,
{
    if l == sl && 0 <= l {
        assert forall|c: int| 0 <= c < TILE_COLUMNS implies cost_row(lanes, sl, sc, l)[c] is None by {
            if open_run(lanes, l, sc, c) {
                lemma_run_contains_ends(lanes[l], sc, c);
            }
        }
    } else if 0 <= l < sl {
        lemma_closed_start_costs(lanes, sl, sc, l + 1);
        let behind = cost_row(lanes, sl, sc, l + 1);
        assert forall|c: int| 0 <= c < TILE_COLUMNS implies cost_row(lanes, sl, sc, l)[c] is None by {
            if l < lanes.len() {
                lemma_entry_cost_none(behind, lanes[l], c, TILE_COLUMNS as int);
            }
        }
    }
}

proof fn lemma_row_minimum_none(row: Seq<Option<nat>>, k: int)
    requires
        forall|c: int| 0 <= c < k ==> row[c] is None,
    ensures
        row_minimum(row, k) is None,
    decreases k,
{
    if k > 0 {
        lemma_row_minimum_none(row, k - 1);
    }
}

proof fn lemma_row_minimum_bound(row: Seq<Option<nat>>, k: int, bound: int)
    requires
        0 <= k <= row.len(),
        costs_at_most(row, bound),
    ensures
        row_minimum(row, k) matches Some(m) ==> m <= bound,
    decreases k,
{
    if k > 0 {
        lemma_row_minimum_bound(row, k - 1, bound);
        assert(match row[k - 1] {
            Some(d) => d <= bound,
            None => true,
        });
    }
}

/// Fewest sideways steps on any path from the start tile to a tile of
/// `target_lane`, or None when that lane cannot be reached.
pub fn minimum_lateral_moves(
    lanes: &[Lane],
    start_lane: usize,
    start_column: usize,
    target_lane: usize,
) -> (moves: Option<usize>)
    requires
        lanes@.len() <= usize::MAX / 8,
        start_lane < lanes@.len() && lanes@[start_lane as int]@.supports(start_column as int)
            ==> start_column < TILE_COLUMNS,
    ensures
        opt_nat(moves) == fewest_lateral_moves(
            lane_views(lanes@),
            start_lane as int,
            start_column as int,
            target_lane as int,
        ),
        moves matches Some(m) ==> m <= 6 * (start_lane + 1),
{
    let ghost lv = lane_views(lanes@);
    let n = lanes.len();
    if start_lane >= n || !lanes[start_lane].supports_player(start_column) {
        proof {
            assert(!open_tile(lv, start_lane as int, start_column as int));
            lemma_closed_start_costs(lv, start_lane as int, start_column as int, target_lane as int);
            lemma_row_minimum_none(cost_row(lv, start_lane as int, start_column as int, target_lane as int), TILE_COLUMNS as int);
        }
        return None;
    }
    if target_lane > start_lane {
        proof {
            lemma_row_minimum_none(cost_row(lv, start_lane as int, start_column as int, target_lane as int), TILE_COLUMNS as int);
        }
        return None;
    }
    let mut row = start_cost_row(&lanes[start_lane], start_column);
    proof {
        assert(lanes@[start_lane as int]@ == lv[start_lane as int]);
    }
    let mut lane = start_lane;
    let ghost mut bound: int = 6;
    while lane > target_lane
        invariant
            target_lane <= lane <= start_lane < n,
            n == lanes@.len(),
            n <= usize::MAX / 8,
            lv == lane_views(lanes@),
            row@.len() == TILE_COLUMNS,
            opt_nats(row@) =~= cost_row(lv, start_lane as int, start_column as int, lane as int),
            bound == 6 * (start_lane - lane + 1),
            costs_at_most(opt_nats(row@), bound),
        decreases lane,
    {
        proof {
            assert(lanes@[lane - 1]@ == lv[lane - 1]);
        }
        let next = next_cost_row(&lanes[lane - 1], &row, Ghost(bound));
        proof {
            let behind = cost_row(lv, start_lane as int, start_column as int, lane as int);
            assert(opt_nats(next@) =~= cost_row(lv, start_lane as int, start_column as int, lane - 1));
            bound = bound + 6;
        }
        row = next;
        lane = lane - 1;
    }
    let mut best: Option<usize> = None;
    let mut c: usize = 0;
    while c < TILE_COLUMNS
        invariant
            c <= TILE_COLUMNS,
            row@.len() == TILE_COLUMNS,
            opt_nat(best) == row_minimum(opt_nats(row@), c as int),
            costs_at_most(opt_nats(row@), bound),
            bound <= 6 * (start_lane + 1),
        decreases TILE_COLUMNS - c,
    {
        best = min_option(best, row[c]);
        c = c + 1;
    }
    proof {
        lemma_row_minimum_bound(opt_nats(row@), TILE_COLUMNS as int, bound);
    }
    best
}


/// `(next_lane, next_column)` is one forward step from `(lane, column)`: the
/// same column of the next lane (index - 1), or a neighbouring column.
pub open spec fn forward_step(lane: int, column: int, next_lane: int, next_column: int) -> bool {
    ||| next_lane == lane - 1 && next_column == column
    ||| next_lane == lane && (next_column == column - 1 || next_column == column + 1)
}

/// The neighbour list names exactly the forward steps that stay on the board.
pub proof fn lemma_forward_neighbor_list(lane: usize, column: usize, next_lane: usize, next_column: usize)
    requires
        column < TILE_COLUMNS,
    ensures
        forward_neighbor_list(lane, column).contains((next_lane, next_column)) <==> (forward_step(
            lane as int,
            column as int,
            next_lane as int,
            next_column as int,
        ) && next_column < TILE_COLUMNS),
{
    let list = forward_neighbor_list(lane, column);
    let target = (next_lane, next_column);
    if forward_step(lane as int, column as int, next_lane as int, next_column as int) && next_column
        < TILE_COLUMNS {
        let a: Seq<(usize, usize)> = if lane > 0 {
            seq![((lane - 1) as usize, column)]
        } else {
            Seq::empty()
        };
        let b: Seq<(usize, usize)> = if column > 0 {
            seq![(lane, (column - 1) as usize)]
        } else {
            Seq::empty()
        };
        let c: Seq<(usize, usize)> = if column + 1 < TILE_COLUMNS {
            seq![(lane, (column + 1) as usize)]
        } else {
            Seq::empty()
        };
        assert(list == a + b + c);
        if next_lane as int == lane - 1 {
            assert(list[0] == target);
        } else if next_column as int == column - 1 {
            assert(list[a.len() as int] == target);
        } else {
            assert(list[(a.len() + b.len()) as int] == target);
        }
    }
    if list.contains(target) {
        let w = choose|w: int| 0 <= w < list.len() && list[w] == target;
    }
}

proof fn lemma_run_single(lane: LaneView, c: int)
    requires
        0 <= c < TILE_COLUMNS,
        lane.supports(c),
    ensures
        lane_run_open(lane, c, c),
{
}

proof fn lemma_run_extend(lane: LaneView, a: int, b: int, next: int)
    requires
        lane_run_open(lane, a, b),
        next == b - 1 || next == b + 1,
        0 <= next < TILE_COLUMNS,
        lane.supports(next),
    ensures
        lane_run_open(lane, a, next),
{
    assert forall|k: int| #[trigger] between(a, next, k) implies 0 <= k < TILE_COLUMNS && lane.supports(k) by {
        if k != next {
            assert(between(a, b, k));
            assert(lane.supports(k));
            assert(0 <= k < TILE_COLUMNS);
        }
    }
    assert(lane_run_open(lane, a, next));
}

/// The start tile is reachable when the player can stand on it.
pub proof fn lemma_start_reachable(lanes: Seq<LaneView>, sl: int, sc: int)
    requires
        open_tile(lanes, sl, sc),
    ensures
        reachable(lanes, sl, sc, sl, sc),
{
    lemma_run_single(lanes[sl], sc);
}

/// A forward step from a reachable tile onto an open tile reaches a
/// reachable tile.
pub proof fn lemma_reachable_closed(
    lanes: Seq<LaneView>,
    sl: int,
    sc: int,
    l: int,
    c: int,
    nl: int,
    nc: int,
)
    requires
        reachable(lanes, sl, sc, l, c),
        forward_step(l, c, nl, nc),
        open_tile(lanes, nl, nc),
    ensures
        reachable(lanes, sl, sc, nl, nc),
{
    lemma_reachable_is_open(lanes, sl, sc, l, c);
    if nl == l - 1 {
        let behind = reach_row(lanes, sl, sc, l);
        lemma_run_single(lanes[nl], nc);
        assert(behind[c]);
        assert(entered_from(behind, lanes[nl], nc));
    } else if l == sl {
        lemma_run_extend(lanes[l], sc, c, nc);
    } else {
        let behind = reach_row(lanes, sl, sc, l + 1);
        let s = choose|s: int|
            0 <= s < TILE_COLUMNS && #[trigger] behind[s] && lane_run_open(lanes[l], s, c);
        lemma_run_extend(lanes[l], s, c, nc);
        assert(entered_from(behind, lanes[l], nc));
    }
}

proof fn lemma_walk(
    lanes: Seq<LaneView>,
    p: spec_fn(int, int) -> bool,
    l: int,
    a: int,
    b: int,
)
    requires
        0 <= l < lanes.len(),
        p(l, a),
        lane_run_open(lanes[l], a, b),
        forall|x: int, y: int, nx: int, ny: int|
            #![trigger p(x, y), p(nx, ny)]
            p(x, y) && forward_step(x, y, nx, ny) && open_tile(lanes, nx, ny) ==> p(nx, ny),
    ensures
        p(l, b),
    decreases abs_diff(a, b),
{
    if a != b {
        let prev = if a < b {
            b - 1
        } else {
            b + 1
        };
        assert(between(a, b, prev));
        assert(lanes[l].supports(prev));
        assert forall|k: int| #[trigger] between(a, prev, k) implies 0 <= k < TILE_COLUMNS && lanes[l].supports(k) by {
            assert(between(a, b, k));
            assert(lanes[l].supports(k));
            assert(0 <= k < TILE_COLUMNS);
        }
        assert(lane_run_open(lanes[l], a, prev));
        lemma_walk(lanes, p, l, a, prev);
        assert(between(a, b, b));
        assert(lanes[l].supports(b));
        assert(forward_step(l, prev, l, b));
    }
}

/// Reachability is the least set of tiles that holds the start tile (when the
/// player can stand on it) and is closed under forward steps onto open tiles:
/// any such set holds every reachable tile.
pub proof fn lemma_reachable_least(
    lanes: Seq<LaneView>,
    sl: int,
    sc: int,
    p: spec_fn(int, int) -> bool,
    l: int,
    c: int,
)
    requires
        open_tile(lanes, sl, sc) ==> p(sl, sc),
        forall|x: int, y: int, nx: int, ny: int|
            #![trigger p(x, y), p(nx, ny)]
            p(x, y) && forward_step(x, y, nx, ny) && open_tile(lanes, nx, ny) ==> p(nx, ny),
        reachable(lanes, sl, sc, l, c),
    ensures
        p(l, c),
    decreases sl - l,
{
    lemma_reachable_start_open(lanes, sl, sc, l, c);
    if l == sl {
        lemma_walk(lanes, p, l, sc, c);
    } else {
        let behind = reach_row(lanes, sl, sc, l + 1);
        let s = choose|s: int|
            0 <= s < TILE_COLUMNS && #[trigger] behind[s] && lane_run_open(lanes[l], s, c);
        lemma_reachable_least(lanes, sl, sc, p, l + 1, s);
        lemma_run_contains_ends(lanes[l], s, c);
        assert(forward_step(l + 1, s, l, s));
        assert(p(l, s));
        lemma_walk(lanes, p, l, s, c);
    }
}

proof fn lemma_entry_cost_some(behind: Seq<Option<nat>>, reach: Seq<bool>, lane: LaneView, column: int, k: int)
    requires
        0 <= k <= TILE_COLUMNS,
        behind.len() == TILE_COLUMNS,
        reach.len() == TILE_COLUMNS,
        forall|s: int| 0 <= s < TILE_COLUMNS ==> (behind[s] is Some <==> reach[s]),
    ensures
        entry_cost(behind, lane, column, k) is Some <==> exists|s: int|
            0 <= s < k && #[trigger] reach[s] && lane_run_open(lane, s, column),
    decreases k,
{
    if k > 0 {
        lemma_entry_cost_some(behind, reach, lane, column, k - 1);
        if entry_step(behind[k - 1], lane, k - 1, column) is Some {
            assert(reach[k - 1] && lane_run_open(lane, k - 1, column));
        }
        if exists|s: int| 0 <= s < k && #[trigger] reach[s] && lane_run_open(lane, s, column) {
            let s = choose|s: int| 0 <= s < k && #[trigger] reach[s] && lane_run_open(lane, s, column);
            if s == k - 1 {
                assert(entry_step(behind[k - 1], lane, k - 1, column) is Some);
            } else {
                assert(exists|t: int| 0 <= t < k - 1 && #[trigger] reach[t] && lane_run_open(lane, t, column));
            }
        }
    }
}

/// A tile has a finite sideways cost exactly when it is reachable.
pub proof fn lemma_cost_iff_reachable(lanes: Seq<LaneView>, sl: int, sc: int, l: int)
    ensures
        forall|c: int|
            0 <= c < TILE_COLUMNS ==> (cost_row(lanes, sl, sc, l)[c] is Some <==> reachable(
                lanes,
                sl,
                sc,
                l,
                c,
            )),
    decreases sl - l,
{
    if 0 <= l < sl {
        lemma_cost_iff_reachable(lanes, sl, sc, l + 1);
        let behind = cost_row(lanes, sl, sc, l + 1);
        let reach = reach_row(lanes, sl, sc, l + 1);
        assert forall|s: int| 0 <= s < TILE_COLUMNS implies (behind[s] is Some <==> reach[s]) by {
            assert(cost_row(lanes, sl, sc, l + 1)[s] is Some <==> reachable(lanes, sl, sc, l + 1, s));
        }
        assert forall|c: int| 0 <= c < TILE_COLUMNS implies (cost_row(lanes, sl, sc, l)[c] is Some
            <==> reachable(lanes, sl, sc, l, c)) by {
            if l < lanes.len() {
                lemma_entry_cost_some(behind, reach, lanes[l], c, TILE_COLUMNS as int);
            }
        }
    }
}

proof fn lemma_row_minimum_some(row: Seq<Option<nat>>, k: int)
    requires
        0 <= k <= row.len(),
    ensures
        row_minimum(row, k) is Some <==> exists|c: int| 0 <= c < k && #[trigger] row[c] is Some,
    decreases k,
{
    if k > 0 {
        lemma_row_minimum_some(row, k - 1);
        if exists|c: int| 0 <= c < k && #[trigger] row[c] is Some {
            let c = choose|c: int| 0 <= c < k && #[trigger] row[c] is Some;
            if c < k - 1 {
                assert(exists|d: int| 0 <= d < k - 1 && #[trigger] row[d] is Some);
            }
        }
    }
}

/// The fewest sideways moves to a lane exist exactly when some tile of that
/// lane is reachable.
pub proof fn lemma_lateral_moves_iff_path(lanes: Seq<LaneView>, sl: int, sc: int, target: int)
    ensures
        fewest_lateral_moves(lanes, sl, sc, target) is Some <==> exists|c: int|
            #[trigger] reachable(lanes, sl, sc, target, c),
{
    let row = cost_row(lanes, sl, sc, target);
    lemma_cost_iff_reachable(lanes, sl, sc, target);
    lemma_row_minimum_some(row, TILE_COLUMNS as int);
    if exists|c: int| #[trigger] reachable(lanes, sl, sc, target, c) {
        let c = choose|c: int| #[trigger] reachable(lanes, sl, sc, target, c);
        assert(row[c] is Some);
    }
    if fewest_lateral_moves(lanes, sl, sc, target) is Some {
        let c = choose|c: int| 0 <= c < TILE_COLUMNS && #[trigger] row[c] is Some;
        assert(reachable(lanes, sl, sc, target, c));
    }
}


/// Putting a new lane in front of a board (every lane moves one index back)
/// moves every reachable tile one lane back with it.
pub proof fn lemma_reach_row_shift(lanes: Seq<LaneView>, shifted: Seq<LaneView>, sl: int, sc: int, l: int)
    requires
        shifted.len() == lanes.len(),
        forall|j: int| 0 <= j < lanes.len() - 1 ==> #[trigger] shifted[j + 1] == lanes[j],
        0 <= l <= sl,
        sl + 1 < lanes.len(),
    ensures
        reach_row(shifted, sl + 1, sc, l + 1) == reach_row(lanes, sl, sc, l),
    decreases sl - l,
{
    if l == sl {
        assert(shifted[sl + 1] == lanes[sl]);
        assert(reach_row(shifted, sl + 1, sc, l + 1) =~= reach_row(lanes, sl, sc, l));
    } else {
        lemma_reach_row_shift(lanes, shifted, sl, sc, l + 1);
        assert(shifted[l + 1] == lanes[l]);
        assert(reach_row(shifted, sl + 1, sc, l + 1) =~= reach_row(lanes, sl, sc, l));
    }
}

/// When a tile of lane 1 is reachable and every column of lane 0 can carry
/// the player, every column of lane 0 is reachable.
pub proof fn lemma_open_front_lane(lanes: Seq<LaneView>, sl: int, sc: int, c: int, a: int)
    requires
        1 <= sl,
        reachable(lanes, sl, sc, 1, c),
        0 < lanes.len(),
        forall|k: int| 0 <= k < TILE_COLUMNS ==> #[trigger] lanes[0].supports(k),
        0 <= a < TILE_COLUMNS,
    ensures
        reachable(lanes, sl, sc, 0, a),
{
    let behind = reach_row(lanes, sl, sc, 1);
    assert(behind[c]);
    assert forall|k: int| #[trigger] between(c, a, k) implies 0 <= k < TILE_COLUMNS && lanes[0].supports(k) by {
        assert(0 <= k < TILE_COLUMNS);
    }
    assert(lane_run_open(lanes[0], c, a));
    assert(entered_from(behind, lanes[0], a));
}

/// Step `i` of a walk goes one forward step, to the next lane or to a
/// neighbouring column.
pub open spec fn walk_step(walk: Seq<(int, int)>, i: int) -> bool {
    forward_step(walk[i].0, walk[i].1, walk[i + 1].0, walk[i + 1].1)
}

/// A walk over the board: a nonempty list of tiles the player can stand
/// on, each one forward step from the one before.
pub open spec fn is_walk(lanes: Seq<LaneView>, walk: Seq<(int, int)>) -> bool {
    &&& walk.len() >= 1
    &&& forall|i: int| 0 <= i < walk.len() ==> open_tile(lanes, (#[trigger] walk[i]).0, walk[i].1)
    &&& forall|i: int| 0 <= i < walk.len() - 1 ==> #[trigger] walk_step(walk, i)
}

/// How many steps of a walk go sideways (left or right, one each).
pub open spec fn sideways_steps(walk: Seq<(int, int)>) -> nat
    decreases walk.len(),
{
    if walk.len() <= 1 {
        0
    } else {
        sideways_steps(walk.drop_last()) + if walk[walk.len() - 2].0 == walk[walk.len() - 1].0 {
            1nat
        } else {
            0nat
        }
    }
}

proof fn lemma_walk_push(lanes: Seq<LaneView>, w: Seq<(int, int)>, t: (int, int))
    requires
        is_walk(lanes, w),
        forward_step(w.last().0, w.last().1, t.0, t.1),
        open_tile(lanes, t.0, t.1),
    ensures
        is_walk(lanes, w.push(t)),
        w.push(t)[0] == w[0],
        w.push(t).last() == t,
        sideways_steps(w.push(t)) == sideways_steps(w) + if w.last().0 == t.0 {
            1nat
        } else {
            0nat
        },
{
    let v = w.push(t);
    assert(v.drop_last() =~= w);
    assert forall|i: int| 0 <= i < v.len() implies open_tile(lanes, (#[trigger] v[i]).0, v[i].1) by {
        if i < w.len() {
            assert(v[i] == w[i]);
        }
    }
    assert forall|i: int| 0 <= i < v.len() - 1 implies #[trigger] walk_step(v, i) by {
        if i < w.len() - 1 {
            assert(walk_step(w, i));
        }
    }
}

proof fn lemma_walk_drop(lanes: Seq<LaneView>, w: Seq<(int, int)>)
    requires
        is_walk(lanes, w),
        w.len() >= 2,
    ensures
        is_walk(lanes, w.drop_last()),
        w.drop_last()[0] == w[0],
        forward_step(w.drop_last().last().0, w.drop_last().last().1, w.last().0, w.last().1),
        open_tile(lanes, w.last().0, w.last().1),
{
    let p = w.drop_last();
    assert forall|i: int| 0 <= i < p.len() implies open_tile(lanes, (#[trigger] p[i]).0, p[i].1) by {
        assert(open_tile(lanes, w[i].0, w[i].1));
    }
    assert forall|i: int| 0 <= i < p.len() - 1 implies #[trigger] walk_step(p, i) by {
        assert(walk_step(w, i));
    }
    assert(walk_step(w, w.len() - 2));
    assert(open_tile(lanes, w[w.len() - 1].0, w[w.len() - 1].1));
}

/// A walk extended along an open run of its last lane.
proof fn lemma_run_walk(lanes: Seq<LaneView>, w: Seq<(int, int)>, l: int, a: int, b: int) -> (w2: Seq<(int, int)>)
    requires
        is_walk(lanes, w),
        w.last() == (l, a),
        0 <= l < lanes.len(),
        lane_run_open(lanes[l], a, b),
    ensures
        is_walk(lanes, w2),
        w2[0] == w[0],
        w2.last() == (l, b),
        sideways_steps(w2) == sideways_steps(w) + abs_diff(a, b),
    decreases abs_diff(a, b),
{
    if a == b {
        w
    } else {
        let prev = if a < b {
            b - 1
        } else {
            b + 1
        };
        assert forall|k: int| #[trigger] between(a, prev, k) implies 0 <= k < TILE_COLUMNS && lanes[l].supports(k) by {
            assert(between(a, b, k));
            assert(lanes[l].supports(k));
        }
        assert(between(a, b, b));
        assert(lanes[l].supports(b));
        let w1 = lemma_run_walk(lanes, w, l, a, prev);
        lemma_walk_push(lanes, w1, (l, b));
        w1.push((l, b))
    }
}

proof fn lemma_entry_cost_attained(behind: Seq<Option<nat>>, lane: LaneView, column: int, k: int) -> (s: int)
    requires
        entry_cost(behind, lane, column, k) is Some,
    ensures
        0 <= s < k,
        entry_step(behind[s], lane, s, column) == entry_cost(behind, lane, column, k),
    decreases k,
{
    let last = entry_step(behind[k - 1], lane, k - 1, column);
    let rest = entry_cost(behind, lane, column, k - 1);
    if rest is Some && (last is None || rest->0 <= last->0) {
        lemma_entry_cost_attained(behind, lane, column, k - 1)
    } else {
        k - 1
    }
}

proof fn lemma_entry_cost_least(behind: Seq<Option<nat>>, lane: LaneView, column: int, k: int, s: int)
    requires
        0 <= s < k,
        entry_step(behind[s], lane, s, column) is Some,
    ensures
        entry_cost(behind, lane, column, k) matches Some(x) && x <= entry_step(behind[s], lane, s, column)->0,
    decreases k,
{
    if s < k - 1 {
        lemma_entry_cost_least(behind, lane, column, k - 1, s);
    }
}

proof fn lemma_row_minimum_attained(row: Seq<Option<nat>>, k: int) -> (c: int)
    requires
        row_minimum(row, k) is Some,
    ensures
        0 <= c < k,
        row[c] == row_minimum(row, k),
    decreases k,
{
    let rest = row_minimum(row, k - 1);
    if rest is Some && (row[k - 1] is None || rest->0 <= row[k - 1]->0) {
        lemma_row_minimum_attained(row, k - 1)
    } else {
        k - 1
    }
}

proof fn lemma_row_minimum_least(row: Seq<Option<nat>>, k: int, c: int)
    requires
        0 <= c < k,
        row[c] is Some,
    ensures
        row_minimum(row, k) matches Some(x) && x <= row[c]->0,
    decreases k,
{
    if c < k - 1 {
        lemma_row_minimum_least(row, k - 1, c);
    }
}

/// Every tile with a cost is reached by a walk from the start tile with
/// exactly that many sideways steps.
proof fn lemma_cost_walk(lanes: Seq<LaneView>, sl: int, sc: int, l: int, c: int) -> (w: Seq<(int, int)>)
    requires
        0 <= c < TILE_COLUMNS,
        cost_row(lanes, sl, sc, l)[c] is Some,
    ensures
        is_walk(lanes, w),
        w[0] == (sl, sc),
        w.last() == (l, c),
        sideways_steps(w) == cost_row(lanes, sl, sc, l)[c]->0,
    decreases sl - l,
{
    if l == sl {
        assert(open_run(lanes, l, sc, c));
        lemma_run_contains_ends(lanes[l], sc, c);
        let w0 = seq![(sl, sc)];
        assert(walk_step(w0, 0) || true);
        assert(is_walk(lanes, w0));
        assert(sideways_steps(w0) == 0);
        lemma_run_walk(lanes, w0, l, sc, c)
    } else {
        let behind = cost_row(lanes, sl, sc, l + 1);
        let lane = lanes[l];
        let s = lemma_entry_cost_attained(behind, lane, c, TILE_COLUMNS as int);
        assert(lane_run_open(lane, s, c));
        lemma_run_contains_ends(lane, s, c);
        let w1 = lemma_cost_walk(lanes, sl, sc, l + 1, s);
        lemma_walk_push(lanes, w1, (l, s));
        let w2 = w1.push((l, s));
        lemma_run_walk(lanes, w2, l, s, c)
    }
}

/// Every walk from the start tile ends on a tile whose cost is at most the
/// walk's number of sideways steps.
proof fn lemma_walk_cost(lanes: Seq<LaneView>, sl: int, sc: int, w: Seq<(int, int)>)
    requires
        is_walk(lanes, w),
        w[0] == (sl, sc),
    ensures
        cost_row(lanes, sl, sc, w.last().0)[w.last().1] matches Some(d) && d <= sideways_steps(w),
    decreases w.len(),
{
    if w.len() == 1 {
        assert(open_tile(lanes, w[0].0, w[0].1));
        lemma_run_single(lanes[sl], sc);
        assert(open_run(lanes, sl, sc, sc));
    } else {
        let p = w.drop_last();
        lemma_walk_drop(lanes, w);
        lemma_walk_cost(lanes, sl, sc, p);
        let (l, c) = p.last();
        let t = w.last();
        let d = cost_row(lanes, sl, sc, l)[c]->0;
        assert(w[w.len() - 2] == p.last());
        if t.0 == l - 1 {
            let behind = cost_row(lanes, sl, sc, l);
            lemma_run_single(lanes[l - 1], c);
            assert(entry_step(behind[c], lanes[l - 1], c, c) == Some(d));
            lemma_entry_cost_least(behind, lanes[l - 1], c, TILE_COLUMNS as int, c);
        } else if l == sl {
            assert(open_run(lanes, l, sc, c));
            lemma_run_extend(lanes[l], sc, c, t.1);
        } else {
            let behind = cost_row(lanes, sl, sc, l + 1);
            let lane = lanes[l];
            let s = lemma_entry_cost_attained(behind, lane, c, TILE_COLUMNS as int);
            assert(lane_run_open(lane, s, c));
            lemma_run_extend(lane, s, c, t.1);
            lemma_entry_cost_least(behind, lane, t.1, TILE_COLUMNS as int, s);
        }
    }
}

/// The fewest sideways moves to a lane bound every walk there: a walk from
/// the start tile to a tile of `target` over open tiles, by steps to the
/// next lane and sideways steps, has at least that many sideways steps
/// (and the lane then has a result).
pub proof fn lemma_fewest_lateral_moves_lower_bound(
    lanes: Seq<LaneView>,
    sl: int,
    sc: int,
    target: int,
    walk: Seq<(int, int)>,
)
    requires
        is_walk(lanes, walk),
        walk[0] == (sl, sc),
        walk.last().0 == target,
    ensures
        fewest_lateral_moves(lanes, sl, sc, target) matches Some(d) && d <= sideways_steps(walk),
{
    lemma_walk_cost(lanes, sl, sc, walk);
    assert(open_tile(lanes, walk[walk.len() - 1].0, walk[walk.len() - 1].1));
    lemma_row_minimum_least(cost_row(lanes, sl, sc, target), TILE_COLUMNS as int, walk.last().1);
}

/// The fewest sideways moves to a lane are achieved: some walk from the
/// start tile to a tile of `target` has exactly that many sideways steps.
pub proof fn lemma_fewest_lateral_moves_attained(lanes: Seq<LaneView>, sl: int, sc: int, target: int) -> (walk: Seq<
    (int, int),
>)
    requires
        fewest_lateral_moves(lanes, sl, sc, target) is Some,
    ensures
        is_walk(lanes, walk),
        walk[0] == (sl, sc),
        walk.last().0 == target,
        fewest_lateral_moves(lanes, sl, sc, target) == Some(sideways_steps(walk)),
{
    let row = cost_row(lanes, sl, sc, target);
    let c = lemma_row_minimum_attained(row, TILE_COLUMNS as int);
    lemma_cost_walk(lanes, sl, sc, target, c)
}

} // verus!
