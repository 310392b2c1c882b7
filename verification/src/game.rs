use vstd::prelude::*;
use std::collections::VecDeque;
use crate::grid::{
    fewest_lateral_moves, lane_run_open, minimum_lateral_moves, open_tile, path_exists, reachable,
    reachable_columns_at_lane,
    section_crossing, section_has_crossing,
};
use crate::masks::{has_bit, mask_difference, mask_difference_spec, mirror_mask};
use crate::random::{draw, shuffle_spec, Random};
use crate::world::{
    Environment, ForestSectionKind, Lane, LaneKind, LaneView, Section, SectionKind,
    SectionSignature, TILE_COLUMNS, contains_column, lane_views, lanes_on_board, masks_match,
    strictly_increasing,
};

verus! {

/// Side of the square board.
pub const GRID_SIZE: usize = 7;

/// Number of lanes on the board.
pub const LANE_COUNT: usize = 7;

/// How many accepted section signatures are remembered.
pub const RECENT_SECTION_LIMIT: usize = 6;

/// How many initial boards are tried before the best one is kept.
pub const BOARD_ATTEMPTS: usize = 512;

/// How many candidates are tried for a section or a recycled lane.
pub const SECTION_ATTEMPTS: usize = 96;

#[derive(Clone, Copy, Debug, PartialEq, Eq, Structural)]
pub enum Move {
    Left,
    Right,
    Forward,
    Backward,
}

/// The game state: the board, the player, the score and what the world
/// generator remembers.
pub struct Game {
    pub lanes: Vec<Lane>,
    pub player_column: usize,
    pub player_lane: usize,
    pub score: u32,
    pub game_over: bool,
    pub paused: bool,
    pub next_section_id: usize,
    pub pending_lanes: VecDeque<Lane>,
    pub recent_sections: VecDeque<SectionSignature>,
    pub random: Random,
}

/// The views of a queue of lanes.
pub open spec fn queue_views(lanes: Seq<Lane>) -> Seq<LaneView> {
    lanes.map_values(|lane: Lane| lane@)
}

/// The views of a queue of section signatures.
pub open spec fn signature_views(signatures: Seq<SectionSignature>) -> Seq<(SectionKind, Seq<u8>)> {
    signatures.map_values(|s: SectionSignature| s@)
}

/// The tile a move leads to, as `(column, lane)`, when it stays on the board.
pub open spec fn move_target(column: usize, lane: usize, direction: Move) -> Option<(usize, usize)> {
    match direction {
        Move::Left => if column > 0 {
            Some(((column - 1) as usize, lane))
        } else {
            None
        },
        Move::Right => if column + 1 < TILE_COLUMNS {
            Some(((column + 1) as usize, lane))
        } else {
            None
        },
        Move::Forward => if lane > 0 {
            Some((column, (lane - 1) as usize))
        } else {
            None
        },
        Move::Backward => if lane + 1 < LANE_COUNT {
            Some((column, (lane + 1) as usize))
        } else {
            None
        },
    }
}

/// Milliseconds the board takes to advance one lane at a given score.
pub open spec fn cycle_millis_for(score: u32) -> u32 {
    if score <= 9 {
        1250
    } else if score <= 19 {
        1050
    } else if score <= 34 {
        880
    } else if score <= 49 {
        720
    } else {
        580
    }
}

/// The game never slows down as the score grows: a higher score never gives
/// a longer lane cycle.
pub proof fn lemma_cycle_never_slows(lower: u32, higher: u32)
    requires
        lower <= higher,
    ensures
        cycle_millis_for(higher) <= cycle_millis_for(lower),
{
}

/// The lane cycle gets strictly shorter at each score threshold: 10, 20, 35
/// and 50 points.
pub proof fn lemma_cycle_speeds_up_at_thresholds(score: u32)
    requires
        score == 10 || score == 20 || score == 35 || score == 50,
    ensures
        cycle_millis_for(score) < cycle_millis_for((score - 1) as u32),
{
}

/// Rivers never get rarer as the score grows.
pub proof fn lemma_rivers_never_rarer(lower: u32, higher: u32)
    requires
        lower <= higher,
    ensures
        river_chance_for(lower) <= river_chance_for(higher),
{
}

/// Percent chance that a new section is a river, at a given score.
pub open spec fn river_chance_for(score: u32) -> usize {
    if score <= 9 {
        22
    } else if score <= 34 {
        28
    } else {
        34
    }
}

/// The forest kind picked by a roll below 100 at a given score.
pub open spec fn kind_for_roll(score: u32, roll: usize) -> ForestSectionKind {
    if score <= 9 {
        if roll < 42 {
            ForestSectionKind::Clearing
        } else if roll < 87 {
            ForestSectionKind::Grove
        } else {
            ForestSectionKind::Thicket
        }
    } else if score <= 34 {
        if roll < 28 {
            ForestSectionKind::Clearing
        } else if roll < 72 {
            ForestSectionKind::Grove
        } else {
            ForestSectionKind::Thicket
        }
    } else {
        if roll < 18 {
            ForestSectionKind::Clearing
        } else if roll < 55 {
            ForestSectionKind::Grove
        } else {
            ForestSectionKind::Thicket
        }
    }
}

/// The kind used when every roll repeated the previous forest kind.
pub open spec fn fallback_kind(previous: Option<ForestSectionKind>) -> ForestSectionKind {
    match previous {
        Some(ForestSectionKind::Clearing) => ForestSectionKind::Grove,
        Some(ForestSectionKind::Grove) => ForestSectionKind::Thicket,
        _ => ForestSectionKind::Clearing,
    }
}

/// Rolling for a forest kind different from `previous`, at most `tries`
/// times: the generator state after, and the kind.
pub open spec fn kind_attempts(
    state: u64,
    score: u32,
    previous: Option<ForestSectionKind>,
    tries: nat,
) -> (u64, ForestSectionKind)
    decreases tries,
{
    if tries == 0 {
        (state, fallback_kind(previous))
    } else {
        let (next, roll) = draw(state, 100);
        let kind = kind_for_roll(score, roll);
        if Some(kind) != previous {
            (next, kind)
        } else {
            kind_attempts(next, score, previous, (tries - 1) as nat)
        }
    }
}

/// The kind of the most recent forest section among the signatures.
pub open spec fn last_forest_kind(signatures: Seq<(SectionKind, Seq<u8>)>) -> Option<ForestSectionKind>
    decreases signatures.len(),
{
    if signatures.len() == 0 {
        None
    } else {
        match signatures.last().0 {
            SectionKind::Forest(kind) => Some(kind),
            SectionKind::River => last_forest_kind(signatures.drop_last()),
        }
    }
}

/// Game state that every operation relies on: a full board with the player
/// on it, lanes whose columns lie on the board, and a bounded memory of
/// recent sections.
pub open spec fn game_well_formed(game: Game) -> bool {
    &&& game.lanes@.len() == LANE_COUNT
    &&& game.player_lane < LANE_COUNT
    &&& game.player_column < TILE_COLUMNS
    &&& lanes_on_board(lane_views(game.lanes@))
    &&& lanes_on_board(queue_views(game.pending_lanes@))
    &&& game.recent_sections@.len() <= RECENT_SECTION_LIMIT
}

/// The board, the player and the run are the same in both states.
pub open spec fn board_unchanged(before: Game, after: Game) -> bool {
    &&& after.lanes == before.lanes
    &&& after.player_column == before.player_column
    &&& after.player_lane == before.player_lane
    &&& after.score == before.score
    &&& after.game_over == before.game_over
    &&& after.paused == before.paused
}

/// The forest kind of a section kind (Clearing for a river).
pub open spec fn forest_kind_of(kind: SectionKind) -> ForestSectionKind {
    match kind {
        SectionKind::Forest(k) => k,
        SectionKind::River => ForestSectionKind::Clearing,
    }
}

/// The forest kind that a roll below 100 picks at a given score.
fn forest_kind_for_roll(score: u32, roll: usize) -> (kind: ForestSectionKind)
    ensures
        kind == kind_for_roll(score, roll),
{
    if score <= 9 {
        if roll < 42 {
            ForestSectionKind::Clearing
        } else if roll < 87 {
            ForestSectionKind::Grove
        } else {
            ForestSectionKind::Thicket
        }
    } else if score <= 34 {
        if roll < 28 {
            ForestSectionKind::Clearing
        } else if roll < 72 {
            ForestSectionKind::Grove
        } else {
            ForestSectionKind::Thicket
        }
    } else {
        if roll < 18 {
            ForestSectionKind::Clearing
        } else if roll < 55 {
            ForestSectionKind::Grove
        } else {
            ForestSectionKind::Thicket
        }
    }
}

/// The kind of the most recent forest section remembered.
fn last_forest_kind_of(recent: &VecDeque<SectionSignature>) -> (kind: Option<ForestSectionKind>)
    ensures
        kind == last_forest_kind(signature_views(recent@)),
{
    let ghost views = signature_views(recent@);
    let mut i = recent.len();
    proof {
        assert(views.subrange(0, i as int) =~= views);
    }
    while i > 0
        invariant
            i <= recent@.len(),
            views == signature_views(recent@),
            last_forest_kind(views) == last_forest_kind(views.subrange(0, i as int)),
        decreases i,
    {
        let ghost prefix = views.subrange(0, i as int);
        proof {
            assert(prefix.last() == recent@[i - 1]@);
            assert(prefix.drop_last() =~= views.subrange(0, i - 1));
        }
        match recent[i - 1].kind {
            SectionKind::Forest(k) => {
                return Some(k);
            },
            SectionKind::River => {},
        }
        i = i - 1;
    }
    proof {
        assert(views.subrange(0, 0) =~= Seq::<(SectionKind, Seq<u8>)>::empty());
    }
    None
}

/// Rolling never settles on the previous forest kind.
pub proof fn lemma_kind_attempts_differ(
    state: u64,
    score: u32,
    previous: Option<ForestSectionKind>,
    tries: nat,
)
    ensures
        Some(kind_attempts(state, score, previous, tries).1) != previous,
    decreases tries,
{
    if tries > 0 {
        let (next, roll) = draw(state, 100);
        lemma_kind_attempts_differ(next, score, previous, (tries - 1) as nat);
    }
}

/// A freshly generated section with the given id: a river section, or a
/// forest section of the kind its signature names, described by its
/// signature.
pub open spec fn generated_section(section: Section, section_id: usize) -> bool {
    let views = lane_views(section.lanes@);
    &&& signed_as(section, section.signature.kind)
    &&& match section.signature.kind {
        SectionKind::River => river_section(views, section_id),
        SectionKind::Forest(kind) => forest_section(views, section_id, kind),
    }
}

/// The section most recently remembered was a river.
pub open spec fn last_was_river(signatures: Seq<(SectionKind, Seq<u8>)>) -> bool {
    signatures.len() > 0 && signatures.last().0 == SectionKind::River
}

/// The section was accepted: the next id is taken and its signature is
/// remembered.
pub open spec fn accepted(before: Game, after: Game, section: Section) -> bool {
    &&& after.next_section_id == before.next_section_id + 1
    &&& signature_views(after.recent_sections@) == keep_recent(
        signature_views(before.recent_sections@).push(section.signature@),
    )
    &&& after.recent_sections@.len() <= RECENT_SECTION_LIMIT
    &&& board_unchanged(before, after)
    &&& after.pending_lanes == before.pending_lanes
}

/// The views of a section: its lanes and its signature.
pub open spec fn section_view(section: Section) -> (Seq<LaneView>, (SectionKind, Seq<u8>)) {
    (lane_views(section.lanes@), section.signature@)
}

/// The signature is too much like one of the remembered ones.
pub open spec fn like_recent(recent: Seq<(SectionKind, Seq<u8>)>, signature: (SectionKind, Seq<u8>)) -> bool {
    exists|i: int| 0 <= i < recent.len() && too_similar(#[trigger] recent[i], signature)
}

/// A section search keeps a candidate at once when it can be crossed and
/// is not too like a remembered section.
pub open spec fn keeps_at_once(
    candidate: (Seq<LaneView>, (SectionKind, Seq<u8>)),
    recent: Seq<(SectionKind, Seq<u8>)>,
) -> bool {
    section_crossing(candidate.0) && !like_recent(recent, candidate.1)
}

/// Candidate `f` is the first one that can be crossed.
pub open spec fn first_crossing(candidates: Seq<(Seq<LaneView>, (SectionKind, Seq<u8>))>, f: int) -> bool {
    &&& 0 <= f < candidates.len()
    &&& section_crossing(candidates[f].0)
    &&& forall|j: int| 0 <= j < f ==> !section_crossing(#[trigger] candidates[j].0)
}

/// How a section search over `candidates`, drawn between the generator
/// states `states`, ends with `result` and the state `end`: at the first
/// candidate it keeps at once; otherwise, after `SECTION_ATTEMPTS`
/// candidates, with the first one that can be crossed, or else with a fresh
/// draw (`fresh`).
pub open spec fn search_ends(
    candidates: Seq<(Seq<LaneView>, (SectionKind, Seq<u8>))>,
    states: Seq<u64>,
    recent: Seq<(SectionKind, Seq<u8>)>,
    result: (Seq<LaneView>, (SectionKind, Seq<u8>)),
    end: u64,
    fresh: bool,
) -> bool {
    let n = candidates.len();
    &&& 1 <= n <= SECTION_ATTEMPTS
    &&& states.len() == n + 1
    &&& forall|j: int| 0 <= j < n - 1 ==> !keeps_at_once(#[trigger] candidates[j], recent)
    &&& if keeps_at_once(candidates[n - 1], recent) {
        result == candidates[n - 1] && end == states[n as int]
    } else {
        &&& n == SECTION_ATTEMPTS
        &&& forall|f: int| first_crossing(candidates, f) ==> result == candidates[f] && end == states[n as int]
        &&& (forall|f: int| !first_crossing(candidates, f)) ==> fresh
    }
}

/// A forest candidate drawn from generator state `start` to `end`: a kind
/// chosen as `choose_forest_kind` does, then a section of that kind.
pub open spec fn forest_candidate(
    candidate: (Seq<LaneView>, (SectionKind, Seq<u8>)),
    start: u64,
    end: u64,
    score: u32,
    previous: Option<ForestSectionKind>,
    section_id: usize,
) -> bool {
    let (state, kind) = kind_attempts(start, score, previous, 12);
    &&& candidate.1.0 == SectionKind::Forest(kind)
    &&& masks_match(candidate.0, candidate.1.1)
    &&& forest_section(candidate.0, section_id, kind)
    &&& forest_section_drawn(candidate.0, state, end, kind, section_id)
}

/// The forest candidates of a search, each drawn from one state to the next.
pub open spec fn forest_candidates(
    candidates: Seq<(Seq<LaneView>, (SectionKind, Seq<u8>))>,
    states: Seq<u64>,
    score: u32,
    previous: Option<ForestSectionKind>,
    section_id: usize,
) -> bool {
    &&& states.len() == candidates.len() + 1
    &&& forall|j: int|
        0 <= j < candidates.len() ==> forest_candidate(
            #[trigger] candidates[j],
            states[j],
            states[j + 1],
            score,
            previous,
            section_id,
        )
}

/// `result` is the section a forest section search settles on, drawing
/// from generator state `start` and leaving it at `end`, for the given score,
/// last forest kind and remembered signatures; the fresh draw is a clearing.
#[verifier::opaque]
pub open spec fn forest_section_searched(
    result: (Seq<LaneView>, (SectionKind, Seq<u8>)),
    start: u64,
    end: u64,
    score: u32,
    previous: Option<ForestSectionKind>,
    recent: Seq<(SectionKind, Seq<u8>)>,
    section_id: usize,
) -> bool {
    exists|candidates: Seq<(Seq<LaneView>, (SectionKind, Seq<u8>))>, states: Seq<u64>|
        #[trigger] forest_candidates(candidates, states, score, previous, section_id) && states[0] == start
            && search_ends(
            candidates,
            states,
            recent,
            result,
            end,
            result.1.0 == SectionKind::Forest(ForestSectionKind::Clearing) && masks_match(result.0, result.1.1)
                && forest_section(result.0, section_id, ForestSectionKind::Clearing) && forest_section_drawn(
                result.0,
                states[candidates.len() as int],
                end,
                ForestSectionKind::Clearing,
                section_id,
            ),
        )
}

/// `result` is the next section drawn from generator state `start`, which
/// it leaves at `end`: unless the last remembered section was a river, a
/// draw below 100 under the score's river chance makes it a river section;
/// otherwise it is a forest section.
#[verifier::opaque]
pub open spec fn next_section_drawn(
    result: (Seq<LaneView>, (SectionKind, Seq<u8>)),
    start: u64,
    end: u64,
    score: u32,
    recent: Seq<(SectionKind, Seq<u8>)>,
    section_id: usize,
) -> bool {
    let (state, roll) = draw(start, 100);
    if !last_was_river(recent) && roll < river_chance_for(score) {
        river_section_searched(result, state, end, recent, section_id)
    } else {
        forest_section_searched(
            result,
            if last_was_river(recent) {
                start
            } else {
                state
            },
            end,
            score,
            last_forest_kind(recent),
            recent,
            section_id,
        )
    }
}

/// The lanes of the first `n` sections, one section after the other.
pub open spec fn joined_lanes(sections: Seq<(Seq<LaneView>, (SectionKind, Seq<u8>))>, n: int) -> Seq<LaneView>
    decreases n,
{
    if n <= 0 || sections.len() < n {
        Seq::empty()
    } else {
        joined_lanes(sections, n - 1) + sections[n - 1].0
    }
}

/// `memories` are the remembered signatures before the first section and
/// after each one: every section is remembered, the oldest forgotten first.
pub open spec fn memory_chain(
    sections: Seq<(Seq<LaneView>, (SectionKind, Seq<u8>))>,
    memories: Seq<Seq<(SectionKind, Seq<u8>)>>,
) -> bool {
    &&& memories.len() == sections.len() + 1
    &&& forall|i: int|
        0 <= i < sections.len() ==> memories[i + 1] == keep_recent(memories[i].push((#[trigger] sections[i]).1))
}

/// The first `upto` sections open a first board: forest sections, drawn
/// while fewer than three lanes are out.
pub open spec fn forest_opening(
    sections: Seq<(Seq<LaneView>, (SectionKind, Seq<u8>))>,
    states: Seq<u64>,
    memories: Seq<Seq<(SectionKind, Seq<u8>)>>,
    upto: int,
    score: u32,
    first_id: int,
) -> bool {
    forall|i: int|
        0 <= i < upto ==> forest_section_searched(
            #[trigger] sections[i],
            states[i],
            states[i + 1],
            score,
            last_forest_kind(memories[i]),
            memories[i],
            (first_id + i) as usize,
        ) && (1 <= i ==> joined_lanes(sections, i).len() < 3)
}

/// Section `river_at` is a river section, and the sections after it are
/// next sections drawn while fewer than seven lanes are out.
pub open spec fn river_and_rest(
    sections: Seq<(Seq<LaneView>, (SectionKind, Seq<u8>))>,
    states: Seq<u64>,
    memories: Seq<Seq<(SectionKind, Seq<u8>)>>,
    river_at: int,
    score: u32,
    first_id: int,
) -> bool {
    &&& river_section_searched(
        sections[river_at],
        states[river_at],
        states[river_at + 1],
        memories[river_at],
        (first_id + river_at) as usize,
    )
    &&& forall|i: int|
        river_at < i < sections.len() ==> next_section_drawn(
            #[trigger] sections[i],
            states[i],
            states[i + 1],
            score,
            memories[i],
            (first_id + i) as usize,
        ) && joined_lanes(sections, i).len() < 7
}

/// The sections a first board draws, with the generator states and the
/// remembered signatures before and after each: forest sections until three
/// lanes are out, a river section, then next sections until seven lanes are
/// out.
#[verifier::opaque]
pub open spec fn window_sections(
    sections: Seq<(Seq<LaneView>, (SectionKind, Seq<u8>))>,
    states: Seq<u64>,
    memories: Seq<Seq<(SectionKind, Seq<u8>)>>,
    river_at: int,
    score: u32,
    first_id: int,
) -> bool {
    &&& states.len() == sections.len() + 1
    &&& memory_chain(sections, memories)
    &&& 1 <= river_at < sections.len()
    &&& forest_opening(sections, states, memories, river_at, score, first_id)
    &&& joined_lanes(sections, river_at).len() >= 3
    &&& river_and_rest(sections, states, memories, river_at, score, first_id)
    &&& joined_lanes(sections, sections.len() as int).len() >= LANE_COUNT
}

/// `board` and `queued` are a first board and the lanes drawn beyond it,
/// made of `count` sections with the ids from `first_id` on, drawn from
/// generator state `start` and remembered signatures `memory`, which the
/// drawing leaves at `end` and `memory_end`, for the given score: the board
/// lists the first seven lanes drawn from the farthest to the nearest, and
/// the rest are queued in the order drawn.
#[verifier::opaque]
pub open spec fn window_drawn(
    board: Seq<LaneView>,
    queued: Seq<LaneView>,
    start: u64,
    end: u64,
    memory: Seq<(SectionKind, Seq<u8>)>,
    memory_end: Seq<(SectionKind, Seq<u8>)>,
    score: u32,
    first_id: int,
    count: nat,
) -> bool {
    exists|
        sections: Seq<(Seq<LaneView>, (SectionKind, Seq<u8>))>,
        states: Seq<u64>,
        memories: Seq<Seq<(SectionKind, Seq<u8>)>>,
        river_at: int,
    |
        #[trigger] window_sections(sections, states, memories, river_at, score, first_id) && sections.len() == count
            && states[0] == start && states[count as int] == end && memories[0] == memory
            && memories[count as int] == memory_end && board == joined_lanes(sections, count as int).take(
            LANE_COUNT as int,
        ).reverse() && queued == joined_lanes(sections, count as int).skip(LANE_COUNT as int)
}

/// Adding a section leaves the lanes of the sections before it alone.
proof fn lemma_joined_prefix(
    sections: Seq<(Seq<LaneView>, (SectionKind, Seq<u8>))>,
    section: (Seq<LaneView>, (SectionKind, Seq<u8>)),
    i: int,
)
    requires
        0 <= i <= sections.len(),
    ensures
        joined_lanes(sections.push(section), i) == joined_lanes(sections, i),
    decreases i,
{
    if i > 0 {
        lemma_joined_prefix(sections, section, i - 1);
        assert(sections.push(section)[i - 1] == sections[i - 1]);
    }
}

/// The lanes of all sections after adding one end with that section's lanes.
proof fn lemma_joined_push(
    sections: Seq<(Seq<LaneView>, (SectionKind, Seq<u8>))>,
    section: (Seq<LaneView>, (SectionKind, Seq<u8>)),
)
    ensures
        joined_lanes(sections.push(section), sections.len() + 1int) == joined_lanes(sections, sections.len() as int)
            + section.0,
        forall|i: int|
            0 <= i <= sections.len() ==> #[trigger] joined_lanes(sections.push(section), i) == joined_lanes(sections, i),
{
    assert forall|i: int| 0 <= i <= sections.len() implies #[trigger] joined_lanes(sections.push(section), i)
        == joined_lanes(sections, i) by {
        lemma_joined_prefix(sections, section, i);
    }
    lemma_joined_prefix(sections, section, sections.len() as int);
    assert(sections.push(section)[sections.len() as int] == section);
}

/// The number of columns of the far lane reachable from `(lane, column)`.
pub open spec fn exit_count(board: Seq<LaneView>, lane: int, column: int) -> nat {
    Set::new(|c: usize| reachable(board, lane, column, 0, c as int)).len()
}

/// How good a drawn first board is: ten for each sideways step the best
/// path to the far lane needs, three for each reachable far column; none
/// when the far lane cannot be reached.
pub open spec fn board_quality(board: Seq<LaneView>, lane: int, column: int) -> Option<nat> {
    match fewest_lateral_moves(board, lane, column, 0) {
        Some(m) => Some(m * 10 + exit_count(board, lane, column) * 3),
        None => None,
    }
}

/// A drawn first board is kept at once when the best path to the far lane
/// needs two sideways steps and two far columns can be reached.
pub open spec fn board_kept_at_once(board: Seq<LaneView>, lane: int, column: int) -> bool {
    match fewest_lateral_moves(board, lane, column, 0) {
        Some(m) => m >= 2 && exit_count(board, lane, column) >= 2,
        None => false,
    }
}

/// Attempt `b` drew the best board: it rates above zero and above every
/// earlier attempt, and no later attempt rates above it.
pub open spec fn best_attempt(
    attempts: Seq<(Seq<LaneView>, Seq<LaneView>, Seq<(SectionKind, Seq<u8>)>)>,
    lane: int,
    column: int,
    b: int,
) -> bool {
    &&& 0 <= b < attempts.len()
    &&& board_quality(attempts[b].0, lane, column) matches Some(q) && q > 0 && (forall|j: int|
        0 <= j < b ==> match board_quality((#[trigger] attempts[j]).0, lane, column) {
            Some(p) => p < q,
            None => true,
        }) && (forall|j: int|
        b < j < attempts.len() ==> match board_quality((#[trigger] attempts[j]).0, lane, column) {
            Some(p) => p <= q,
            None => true,
        })
}

/// The attempts of a first-board search: attempt `j` draws a board and its
/// queue with nothing queued or remembered before, from generator state
/// `states[j]` to `states[j + 1]`, ending with the remembered signatures
/// `attempts[j].2`.
pub open spec fn board_attempts(
    attempts: Seq<(Seq<LaneView>, Seq<LaneView>, Seq<(SectionKind, Seq<u8>)>)>,
    states: Seq<u64>,
    ids: Seq<int>,
    score: u32,
) -> bool {
    &&& states.len() == attempts.len() + 1
    &&& ids.len() == attempts.len() + 1
    &&& forall|j: int|
        0 <= j < attempts.len() ==> attempt_drawn(#[trigger] attempts[j], states[j], states[j + 1], score, ids[j], ids[j + 1])
}

/// One attempt of a first-board search: a board, its queue and the
/// remembered signatures, drawn with nothing queued or remembered before,
/// from generator state `start` to `end`, with the section ids from
/// `first_id` up to (not including) `next_id`.
pub open spec fn attempt_drawn(
    attempt: (Seq<LaneView>, Seq<LaneView>, Seq<(SectionKind, Seq<u8>)>),
    start: u64,
    end: u64,
    score: u32,
    first_id: int,
    next_id: int,
) -> bool {
    &&& first_id <= next_id
    &&& window_drawn(attempt.0, attempt.1, start, end, Seq::empty(), attempt.2, score, first_id, (next_id - first_id) as nat)
}

/// `board` is the emergency board drawn from generator state `start` to
/// `end`: grove lanes of section `id` with three and four obstacles in turn,
/// none on `column`.
pub open spec fn emergency_drawn(board: Seq<LaneView>, start: u64, end: u64, column: usize, id: int) -> bool {
    &&& board.len() == LANE_COUNT
    &&& exists|states: Seq<u64>|
        #[trigger] state_chain(states, LANE_COUNT as nat, start, end) && forall|i: int|
            0 <= i < LANE_COUNT ==> forest_lane_drawn(
                #[trigger] board[i],
                states[i],
                states[i + 1],
                (3 + i % 2) as nat,
                Some(column),
            ) && forest_lane(board[i], id as usize, ForestSectionKind::Grove, (3 + i % 2) as nat, Some(column))
}

/// `board`, `queue` and `memory` are the first board, its queue and the
/// remembered signatures that the first-board search settles on for the
/// player at `(lane, column)`, drawing from generator state `start` and
/// section id `first_id` and leaving them at `end` and `next_id`: boards
/// are drawn (up to `BOARD_ATTEMPTS`) until one is kept at once; otherwise
/// the best one is kept; failing that, an emergency board under the next
/// section id, with the queue and memory of the last attempt.
#[verifier::opaque]
pub open spec fn first_board_drawn(
    board: Seq<LaneView>,
    queue: Seq<LaneView>,
    memory: Seq<(SectionKind, Seq<u8>)>,
    start: u64,
    end: u64,
    score: u32,
    lane: int,
    column: usize,
    first_id: int,
    next_id: int,
) -> bool {
    exists|
        attempts: Seq<(Seq<LaneView>, Seq<LaneView>, Seq<(SectionKind, Seq<u8>)>)>,
        states: Seq<u64>,
        ids: Seq<int>,
    |
        #[trigger] board_attempts(attempts, states, ids, score) && states[0] == start && ids[0] == first_id && ({
            let n = attempts.len();
            &&& 1 <= n <= BOARD_ATTEMPTS
            &&& forall|j: int| 0 <= j < n - 1 ==> !board_kept_at_once((#[trigger] attempts[j]).0, lane, column as int)
            &&& if board_kept_at_once(attempts[n - 1].0, lane, column as int) {
                board == attempts[n - 1].0 && queue == attempts[n - 1].1 && memory == attempts[n - 1].2 && end
                    == states[n as int] && next_id == ids[n as int]
            } else {
                &&& n == BOARD_ATTEMPTS
                &&& forall|b: int|
                    best_attempt(attempts, lane, column as int, b) ==> board == attempts[b].0 && queue
                        == attempts[b].1 && memory == attempts[b].2 && end == states[n as int] && next_id
                        == ids[n as int]
                &&& (forall|b: int| !best_attempt(attempts, lane, column as int, b)) ==> queue == attempts[n
                    - 1].1 && memory == attempts[n - 1].2 && next_id == ids[n as int] + 1 && emergency_drawn(
                    board,
                    states[n as int],
                    end,
                    column,
                    ids[n as int],
                )
            }
        })
}

/// The lane the search for the next lane takes from the queue `queue`
/// (generator state `state`, remembered signatures `memory`, next section
/// id `next_id`): when the queue is empty, the next section is drawn into
/// it first; `candidate` is then the queue's front lane and `rest` what
/// stays queued behind it, with the generator left at `state_after`,
/// `memory_after` and `next_after`.
pub open spec fn lane_pick(
    queue: Seq<LaneView>,
    state: u64,
    memory: Seq<(SectionKind, Seq<u8>)>,
    next_id: int,
    pick: (LaneView, Seq<LaneView>, u64, Seq<(SectionKind, Seq<u8>)>, int),
    score: u32,
) -> bool {
    let (candidate, rest, state_after, memory_after, next_after) = pick;
    if queue.len() == 0 {
        exists|section: (Seq<LaneView>, (SectionKind, Seq<u8>))|
            #[trigger] next_section_drawn(section, state, state_after, score, memory, next_id as usize) && memory_after
                == keep_recent(memory.push(section.1)) && next_after == next_id + 1 && section.0.len() > 0
                && candidate == section.0[0] && rest == section.0.skip(1)
    } else {
        state_after == state && memory_after == memory && next_after == next_id && candidate == queue[0] && rest
            == queue.skip(1)
    }
}

/// With `candidate` in front of `board`, two columns of the far lane can be
/// reached from `(lane, column)`.
pub open spec fn lane_fits(candidate: LaneView, board: Seq<LaneView>, lane: int, column: int) -> bool {
    exit_count(seq![candidate] + board, lane, column) >= 2
}

/// The steps of a search for the next lane: step `j` takes `picks[j]` from
/// the queue state `(queues[j], states[j], memories[j], ids[j])`; a lane
/// that does not fit makes the search drop the rest of its section from the
/// queue and go on.
pub open spec fn lane_search(
    picks: Seq<(LaneView, Seq<LaneView>, u64, Seq<(SectionKind, Seq<u8>)>, int)>,
    queues: Seq<Seq<LaneView>>,
    states: Seq<u64>,
    memories: Seq<Seq<(SectionKind, Seq<u8>)>>,
    ids: Seq<int>,
    board: Seq<LaneView>,
    lane: int,
    column: int,
    score: u32,
) -> bool {
    &&& queues.len() == picks.len() + 1
    &&& states.len() == picks.len() + 1
    &&& memories.len() == picks.len() + 1
    &&& ids.len() == picks.len() + 1
    &&& forall|j: int|
        0 <= j < picks.len() ==> lane_pick(queues[j], states[j], memories[j], ids[j], #[trigger] picks[j], score)
            && !lane_fits(picks[j].0, board, lane, column) && queues[j + 1] == picks[j].1.filter(
            other_section(picks[j].0.section_id),
        ) && states[j + 1] == picks[j].2 && memories[j + 1] == picks[j].3 && ids[j + 1] == picks[j].4
}

/// `lane` is the lane that the search for the next lane settles on, in
/// front of `board` with the player moving to `(lane_index, column)`: the
/// search starts from the queue, generator state, remembered signatures and
/// next section id `start` and leaves them at `end`. Up to
/// `SECTION_ATTEMPTS` lanes are taken until one fits; failing that, an
/// empty clearing lane under the next section id is drawn.
#[verifier::opaque]
pub open spec fn next_lane_drawn(
    lane: LaneView,
    start: (Seq<LaneView>, u64, Seq<(SectionKind, Seq<u8>)>, int),
    end: (Seq<LaneView>, u64, Seq<(SectionKind, Seq<u8>)>, int),
    board: Seq<LaneView>,
    lane_index: int,
    column: int,
    score: u32,
) -> bool {
    exists|
        picks: Seq<(LaneView, Seq<LaneView>, u64, Seq<(SectionKind, Seq<u8>)>, int)>,
        queues: Seq<Seq<LaneView>>,
        states: Seq<u64>,
        memories: Seq<Seq<(SectionKind, Seq<u8>)>>,
        ids: Seq<int>,
    |
        #[trigger] lane_search(picks, queues, states, memories, ids, board, lane_index, column, score) && queues[0]
            == start.0 && states[0] == start.1 && memories[0] == start.2 && ids[0] == start.3 && ({
            let n = picks.len();
            ||| (n < SECTION_ATTEMPTS && exists|last: (LaneView, Seq<LaneView>, u64, Seq<(SectionKind, Seq<u8>)>, int)|
                lane_pick(queues[n as int], states[n as int], memories[n as int], ids[n as int], last, score)
                    && lane_fits(last.0, board, lane_index, column) && lane == last.0 && end == (
                    last.1,
                    last.2,
                    last.3,
                    last.4,
                ))
            ||| (n == SECTION_ATTEMPTS && forest_lane(lane, ids[n as int] as usize, ForestSectionKind::Clearing, 0, None)
                && forest_lane_drawn(lane, states[n as int], end.1, 0, None) && end.0 == queues[n as int] && end.2
                == memories[n as int] && end.3 == ids[n as int] + 1)
        })
}

/// The number of reachable far columns listed in increasing order is the
/// exit count.
proof fn lemma_exit_list_count(board: Seq<LaneView>, lane: int, column: int, exits: Seq<usize>)
    requires
        forall|i: int, j: int| 0 <= i < j < exits.len() ==> exits[i] < exits[j],
        forall|x: usize| exits.contains(x) <==> reachable(board, lane, column, 0, x as int),
    ensures
        exits.len() == exit_count(board, lane, column),
{
    assert(strictly_increasing(exits));
    lemma_increasing_set_len(exits);
    assert(exits.to_set() =~= Set::new(|c: usize| reachable(board, lane, column, 0, c as int)));
}

/// A river candidate drawn from generator state `start` to `end`.
pub open spec fn river_candidate(
    candidate: (Seq<LaneView>, (SectionKind, Seq<u8>)),
    start: u64,
    end: u64,
    section_id: usize,
) -> bool {
    &&& candidate.1.0 == SectionKind::River
    &&& masks_match(candidate.0, candidate.1.1)
    &&& river_section(candidate.0, section_id)
    &&& river_section_drawn(candidate.0, start, end, section_id)
}

/// The river candidates of a search, each drawn from one state to the next.
pub open spec fn river_candidates(
    candidates: Seq<(Seq<LaneView>, (SectionKind, Seq<u8>))>,
    states: Seq<u64>,
    section_id: usize,
) -> bool {
    &&& states.len() == candidates.len() + 1
    &&& forall|j: int|
        0 <= j < candidates.len() ==> river_candidate(#[trigger] candidates[j], states[j], states[j + 1], section_id)
}

/// `result` is the section a river section search settles on, drawing from
/// generator state `start` and leaving it at `end`, for the remembered
/// signatures; the fresh draw is another river candidate.
#[verifier::opaque]
pub open spec fn river_section_searched(
    result: (Seq<LaneView>, (SectionKind, Seq<u8>)),
    start: u64,
    end: u64,
    recent: Seq<(SectionKind, Seq<u8>)>,
    section_id: usize,
) -> bool {
    exists|candidates: Seq<(Seq<LaneView>, (SectionKind, Seq<u8>))>, states: Seq<u64>|
        #[trigger] river_candidates(candidates, states, section_id) && states[0] == start && search_ends(
            candidates,
            states,
            recent,
            result,
            end,
            river_candidate(result, states[candidates.len() as int], end, section_id),
        )
}

/// The lanes of a generated section lie on the board and it has two to four
/// of them.
pub proof fn lemma_generated_section_on_board(section: Section, section_id: usize)
    requires
        generated_section(section, section_id),
    ensures
        lanes_on_board(lane_views(section.lanes@)),
        2 <= section.lanes@.len() <= 4,
        section.signature.lane_masks@.len() == section.lanes@.len(),
        forall|i: int|
            0 <= i < section.lanes@.len() ==> (#[trigger] lane_views(section.lanes@)[i]).section_id == section_id
                && (lane_views(section.lanes@)[i].environment == Environment::River <==> section.signature.kind
                == SectionKind::River),
{
    let views = lane_views(section.lanes@);
    assert forall|i: int| 0 <= i < section.lanes@.len() implies (#[trigger] views[i]).section_id == section_id
        && (views[i].environment == Environment::River <==> section.signature.kind == SectionKind::River) by {
        match section.signature.kind {
            SectionKind::River => {
                assert(river_lane(views[i], section_id, views[i].platforms.len()));
            },
            SectionKind::Forest(kind) => {
                assert(forest_lane(views[i], section_id, kind, views[i].obstacles.len(), None));
            },
        }
    }
    assert forall|i: int| 0 <= i < views.len() implies #[trigger] views[i].columns_on_board() by {
        match section.signature.kind {
            SectionKind::River => {
                assert(river_lane(views[i], section_id, views[i].platforms.len()));
            },
            SectionKind::Forest(kind) => {
                assert(forest_lane(views[i], section_id, kind, views[i].obstacles.len(), None));
            },
        }
    }
}

/// Section ids never grow from one lane of the list to the next.
pub open spec fn ids_non_increasing(lanes: Seq<LaneView>) -> bool {
    forall|i: int, j: int| 0 <= i < j < lanes.len() ==> lanes[j].section_id <= lanes[i].section_id
}

/// Section ids never shrink from one lane of the list to the next.
pub open spec fn ids_non_decreasing(lanes: Seq<LaneView>) -> bool {
    forall|i: int, j: int| 0 <= i < j < lanes.len() ==> lanes[i].section_id <= lanes[j].section_id
}

/// Every lane's section id lies in `low..high`.
pub open spec fn ids_within(lanes: Seq<LaneView>, low: int, high: int) -> bool {
    forall|i: int| 0 <= i < lanes.len() ==> low <= #[trigger] lanes[i].section_id < high
}

/// The board and the queue hold the sections in the order they were made:
/// ids fall from the far lane to the near one and rise along the queue, no
/// queued lane is older than the far lane, and every id is below the next
/// one to be given out. So each section fills one unbroken run of lanes.
pub open spec fn sections_in_order(board: Seq<LaneView>, queue: Seq<LaneView>, next_id: usize) -> bool {
    &&& ids_non_increasing(board)
    &&& ids_non_decreasing(queue)
    &&& forall|i: int, k: int|
        0 <= i < board.len() && 0 <= k < queue.len() ==> board[i].section_id <= queue[k].section_id
    &&& ids_within(board, 0, next_id as int)
    &&& ids_within(queue, 0, next_id as int)
}

/// A first board as the generator draws it: sections in order, the three
/// near lanes in the forest and a river in sight.
pub open spec fn drawn_board(board: Seq<LaneView>, queue: Seq<LaneView>, next_id: usize) -> bool {
    &&& sections_in_order(board, queue, next_id)
    &&& board.len() == LANE_COUNT
    &&& forall|i: int| LANE_COUNT - 3 <= i < LANE_COUNT ==> #[trigger] board[i].environment == Environment::Forest
    &&& exists|i: int| 0 <= i < board.len() && #[trigger] board[i].environment == Environment::River
}

/// The emergency board: grove lanes of one section, all with `column` open.
pub open spec fn emergency_board(board: Seq<LaneView>, column: usize) -> bool {
    &&& board.len() == LANE_COUNT
    &&& forall|i: int|
        0 <= i < board.len() ==> (#[trigger] board[i]).environment == Environment::Forest
            && board[i].section_kind == SectionKind::Forest(ForestSectionKind::Grove)
            && board[i].section_id == board[0].section_id
            && !board[i].obstacles.contains(column)
}

/// Keeping some of the lanes of a queue whose ids rise keeps them rising,
/// and keeps only lanes that were in the queue.
proof fn lemma_filter_keeps_order(s: Seq<LaneView>, p: spec_fn(LaneView) -> bool)
    requires
        ids_non_decreasing(s),
    ensures
        ids_non_decreasing(s.filter(p)),
        forall|k: int| 0 <= k < s.filter(p).len() ==> s.contains(#[trigger] s.filter(p)[k]),
    decreases s.len(),
{
    reveal(Seq::filter);
    let f = s.filter(p);
    assert forall|k: int| 0 <= k < f.len() implies s.contains(#[trigger] f[k]) by {
        assert(f.contains(f[k]));
        s.lemma_filter_contains_rev(p, f[k]);
    }
    if s.len() > 0 {
        let rest = s.drop_last();
        lemma_filter_keeps_order(rest, p);
        let g = rest.filter(p);
        if p(s.last()) {
            assert(f =~= g.push(s.last()));
            assert forall|i: int, j: int| 0 <= i < j < f.len() implies f[i].section_id <= f[j].section_id by {
                if j == g.len() {
                    assert(f[i] == g[i]);
                    assert(rest.contains(g[i]));
                    let w = choose|w: int| 0 <= w < rest.len() && rest[w] == g[i];
                    assert(s[w] == rest[w]);
                    assert(s[s.len() - 1] == s.last());
                } else {
                    assert(f[i] == g[i]);
                    assert(f[j] == g[j]);
                }
            }
        } else {
            assert(f =~= g);
        }
    }
}

/// The far part of a board keeps the sections in order.
proof fn lemma_front_part_in_order(board: Seq<LaneView>, queue: Seq<LaneView>, next_id: usize, len: int)
    requires
        sections_in_order(board, queue, next_id),
        0 <= len <= board.len(),
    ensures
        sections_in_order(board.subrange(0, len), queue, next_id),
{
    let b = board.subrange(0, len);
    assert forall|i: int, j: int| 0 <= i < j < b.len() implies b[j].section_id <= b[i].section_id by {
        assert(b[i] == board[i]);
        assert(b[j] == board[j]);
    }
    assert forall|i: int, k: int| 0 <= i < b.len() && 0 <= k < queue.len() implies b[i].section_id
        <= queue[k].section_id by {
        assert(b[i] == board[i]);
    }
    assert forall|i: int| 0 <= i < b.len() implies 0 <= #[trigger] b[i].section_id < next_id by {
        assert(b[i] == board[i]);
    }
}

/// Moving the front lane of the queue in front of the board keeps the
/// sections in order.
proof fn lemma_take_front_in_order(board: Seq<LaneView>, queue: Seq<LaneView>, next_id: usize)
    requires
        sections_in_order(board, queue, next_id),
        queue.len() > 0,
    ensures
        sections_in_order(seq![queue[0]] + board, queue.subrange(1, queue.len() as int), next_id),
{
    let nb = seq![queue[0]] + board;
    let nq = queue.subrange(1, queue.len() as int);
    assert forall|i: int, j: int| 0 <= i < j < nb.len() implies nb[j].section_id <= nb[i].section_id by {
        assert(nb[j] == board[j - 1]);
        if i > 0 {
            assert(nb[i] == board[i - 1]);
        }
    }
    assert forall|i: int, j: int| 0 <= i < j < nq.len() implies nq[i].section_id <= nq[j].section_id by {
        assert(nq[i] == queue[i + 1]);
        assert(nq[j] == queue[j + 1]);
    }
    assert forall|i: int, k: int| 0 <= i < nb.len() && 0 <= k < nq.len() implies nb[i].section_id
        <= nq[k].section_id by {
        assert(nq[k] == queue[k + 1]);
        if i > 0 {
            assert(nb[i] == board[i - 1]);
        }
    }
    assert forall|i: int| 0 <= i < nb.len() implies 0 <= #[trigger] nb[i].section_id < next_id by {
        if i > 0 {
            assert(nb[i] == board[i - 1]);
        }
    }
    assert forall|k: int| 0 <= k < nq.len() implies 0 <= #[trigger] nq[k].section_id < next_id by {
        assert(nq[k] == queue[k + 1]);
    }
}

/// Dropping the front lane of the queue and then some other lanes keeps the
/// sections in order.
proof fn lemma_drop_front_in_order(board: Seq<LaneView>, queue: Seq<LaneView>, next_id: usize, p: spec_fn(LaneView) -> bool)
    requires
        sections_in_order(board, queue, next_id),
        queue.len() > 0,
    ensures
        sections_in_order(board, queue.subrange(1, queue.len() as int).filter(p), next_id),
{
    let rest = queue.subrange(1, queue.len() as int);
    assert forall|i: int, j: int| 0 <= i < j < rest.len() implies rest[i].section_id <= rest[j].section_id by {
        assert(rest[i] == queue[i + 1]);
        assert(rest[j] == queue[j + 1]);
    }
    lemma_filter_keeps_order(rest, p);
    let f = rest.filter(p);
    assert forall|i: int, k: int| 0 <= i < board.len() && 0 <= k < f.len() implies board[i].section_id
        <= f[k].section_id by {
        assert(rest.contains(f[k]));
        let w = choose|w: int| 0 <= w < rest.len() && rest[w] == f[k];
        assert(rest[w] == queue[w + 1]);
    }
    assert forall|k: int| 0 <= k < f.len() implies 0 <= #[trigger] f[k].section_id < next_id by {
        assert(rest.contains(f[k]));
        let w = choose|w: int| 0 <= w < rest.len() && rest[w] == f[k];
        assert(rest[w] == queue[w + 1]);
    }
}

/// A drawn board stays one when more ids have been given out since.
proof fn lemma_drawn_board_later(board: Seq<LaneView>, queue: Seq<LaneView>, next_id: usize, later: usize)
    requires
        drawn_board(board, queue, next_id),
        next_id <= later,
    ensures
        drawn_board(board, queue, later),
{
    assert forall|i: int| 0 <= i < board.len() implies 0 <= #[trigger] board[i].section_id < later by {
        assert(board[i].section_id < next_id);
    }
    assert forall|k: int| 0 <= k < queue.len() implies 0 <= #[trigger] queue[k].section_id < later by {
        assert(queue[k].section_id < next_id);
    }
}

/// Appending the lanes of a new section, all with the next id, keeps the
/// ids in order and below the following id.
proof fn lemma_append_section_ids(stream: Seq<LaneView>, added: Seq<LaneView>, id: int, low: int)
    requires
        ids_non_decreasing(stream),
        ids_within(stream, low, id),
        low <= id,
        forall|k: int| 0 <= k < added.len() ==> (#[trigger] added[k]).section_id == id,
    ensures
        ids_non_decreasing(stream + added),
        ids_within(stream + added, low, id + 1),
{
    let whole = stream + added;
    assert forall|i: int, j: int| 0 <= i < j < whole.len() implies whole[i].section_id <= whole[j].section_id by {
        if j >= stream.len() {
            assert(whole[j] == added[j - stream.len()]);
            if i >= stream.len() {
                assert(whole[i] == added[i - stream.len()]);
            } else {
                assert(whole[i] == stream[i]);
            }
        } else {
            assert(whole[i] == stream[i]);
            assert(whole[j] == stream[j]);
        }
    }
    assert forall|i: int| 0 <= i < whole.len() implies low <= #[trigger] whole[i].section_id < id + 1 by {
        if i >= stream.len() {
            assert(whole[i] == added[i - stream.len()]);
        } else {
            assert(whole[i] == stream[i]);
        }
    }
}

/// Copies of a row of lanes.
fn copy_lanes(lanes: &Vec<Lane>) -> (copy: Vec<Lane>)
    ensures
        lane_views(copy@) == lane_views(lanes@),
{
    let mut copy: Vec<Lane> = Vec::new();
    let mut i: usize = 0;
    while i < lanes.len()
        invariant
            i <= lanes@.len(),
            copy@.len() == i,
            forall|j: int| 0 <= j < i ==> (#[trigger] copy@[j])@ == lanes@[j]@,
        decreases lanes@.len() - i,
    {
        copy.push(lanes[i].clone());
        i = i + 1;
    }
    assert(lane_views(copy@) =~= lane_views(lanes@));
    copy
}

/// Appends copies of `lanes` to the back of the queue.
fn extend_queue(queue: &mut VecDeque<Lane>, lanes: &Vec<Lane>)
    ensures
        queue_views(final(queue)@) == queue_views(old(queue)@) + lane_views(lanes@),
{
    let ghost start = queue_views(queue@);
    let mut i: usize = 0;
    while i < lanes.len()
        invariant
            i <= lanes@.len(),
            queue_views(queue@) == start + lane_views(lanes@).subrange(0, i as int),
        decreases lanes@.len() - i,
    {
        let ghost before = queue@;
        queue.push_back(lanes[i].clone());
        proof {
            assert(queue_views(queue@) =~= queue_views(before).push(lanes@[i as int]@));
            assert(lane_views(lanes@).subrange(0, i + 1) =~= lane_views(lanes@).subrange(0, i as int).push(lanes@[i as int]@));
        }
        i = i + 1;
    }
    assert(lane_views(lanes@).subrange(0, lanes@.len() as int) =~= lane_views(lanes@));
}

/// Lanes of a section other than `section_id`.
pub open spec fn other_section(section_id: usize) -> spec_fn(LaneView) -> bool {
    |lane: LaneView| lane.section_id != section_id
}

/// Drops from the queue every lane of the section `section_id`, keeping the
/// others in order.
fn retain_other_sections(queue: &mut VecDeque<Lane>, section_id: usize)
    ensures
        queue_views(final(queue)@) == queue_views(old(queue)@).filter(other_section(section_id)),
{
    let ghost start = queue_views(queue@);
    let mut kept: VecDeque<Lane> = VecDeque::new();
    let mut i: usize = 0;
    while i < queue.len()
        invariant
            i <= queue@.len(),
            queue@ == old(queue)@,
            start == queue_views(queue@),
            queue_views(kept@) == start.subrange(0, i as int).filter(other_section(section_id)),
        decreases queue@.len() - i,
    {
        let ghost before = kept@;
        let keep = queue[i].section_id != section_id;
        proof {
            let prefix = start.subrange(0, i + 1);
            assert(prefix.drop_last() =~= start.subrange(0, i as int));
            assert(prefix.last() == queue@[i as int]@);
            reveal(Seq::filter);
        }
        if keep {
            kept.push_back(queue[i].clone());
            proof {
                assert(queue_views(kept@) =~= queue_views(before).push(queue@[i as int]@));
            }
        }
        i = i + 1;
    }
    proof {
        assert(start.subrange(0, queue@.len() as int) =~= start);
    }
    *queue = kept;
}

/// At least two columns of the far lane (lane 0) are reachable.
pub open spec fn two_exits(lanes: Seq<LaneView>, start_lane: int, start_column: int) -> bool {
    exists|a: int, b: int|
        a != b && #[trigger] reachable(lanes, start_lane, start_column, 0, a) && #[trigger] reachable(
            lanes,
            start_lane,
            start_column,
            0,
            b,
        )
}

/// A forest lane of a clearing without obstacles.
pub open spec fn open_clearing_lane(lane: LaneView) -> bool {
    &&& lane.environment == Environment::Forest
    &&& lane.section_kind == SectionKind::Forest(ForestSectionKind::Clearing)
    &&& lane.obstacles.len() == 0
    &&& lane.platforms.len() == 0
}

/// Ids that recycling one lane may use up.
pub const RECYCLE_IDS: usize = 97;

/// Appends copies of `lanes` to `stream`.
fn append_lanes(stream: &mut Vec<Lane>, lanes: &Vec<Lane>)
    ensures
        lane_views(final(stream)@) == lane_views(old(stream)@) + lane_views(lanes@),
        final(stream)@.len() == old(stream)@.len() + lanes@.len(),
{
    let ghost start = lane_views(stream@);
    let mut i: usize = 0;
    while i < lanes.len()
        invariant
            i <= lanes@.len(),
            lane_views(stream@) == start + lane_views(lanes@).subrange(0, i as int),
        decreases lanes@.len() - i,
    {
        let ghost before = stream@;
        stream.push(lanes[i].clone());
        proof {
            assert(lane_views(stream@) =~= lane_views(before).push(lanes@[i as int]@));
            assert(lane_views(lanes@).subrange(0, i + 1) =~= lane_views(lanes@).subrange(0, i as int).push(lanes@[i as int]@));
        }
        i = i + 1;
    }
    assert(lane_views(lanes@).subrange(0, lanes@.len() as int) =~= lane_views(lanes@));
}

/// Copies of a queue of lanes.
fn copy_queue(queue: &VecDeque<Lane>) -> (copy: VecDeque<Lane>)
    ensures
        queue_views(copy@) == queue_views(queue@),
{
    let mut copy: VecDeque<Lane> = VecDeque::new();
    let mut i: usize = 0;
    while i < queue.len()
        invariant
            i <= queue@.len(),
            copy@.len() == i,
            forall|j: int| 0 <= j < i ==> (#[trigger] copy@[j])@ == queue@[j]@,
        decreases queue@.len() - i,
    {
        copy.push_back(queue[i].clone());
        i = i + 1;
    }
    assert(queue_views(copy@) =~= queue_views(queue@));
    copy
}

/// Copies of a queue of signatures.
fn copy_signatures(queue: &VecDeque<SectionSignature>) -> (copy: VecDeque<SectionSignature>)
    ensures
        signature_views(copy@) == signature_views(queue@),
{
    let mut copy: VecDeque<SectionSignature> = VecDeque::new();
    let mut i: usize = 0;
    while i < queue.len()
        invariant
            i <= queue@.len(),
            copy@.len() == i,
            forall|j: int| 0 <= j < i ==> (#[trigger] copy@[j])@ == queue@[j]@,
        decreases queue@.len() - i,
    {
        copy.push_back(queue[i].clone());
        i = i + 1;
    }
    assert(signature_views(copy@) =~= signature_views(queue@));
    copy
}

/// A strictly increasing list of columns on the board has at most seven
/// entries.
proof fn lemma_increasing_columns_len(s: Seq<usize>)
    requires
        strictly_increasing(s),
        forall|i: int| 0 <= i < s.len() ==> s[i] < TILE_COLUMNS,
    ensures
        s.len() <= TILE_COLUMNS,
{
    if s.len() > TILE_COLUMNS {
        assert forall|i: int| 0 <= i < s.len() implies s[i] >= i by {
            lemma_increasing_at_least_index(s, i);
        }
        assert(s[TILE_COLUMNS as int] >= TILE_COLUMNS);
    }
}

proof fn lemma_increasing_at_least_index(s: Seq<usize>, i: int)
    requires
        strictly_increasing(s),
        0 <= i < s.len(),
    ensures
        s[i] >= i,
    decreases i,
{
    if i > 0 {
        lemma_increasing_at_least_index(s, i - 1);
    }
}

/// A column open in every lane from the start lane to the far lane leads
/// straight to the far lane.
proof fn lemma_open_column_path(lanes: Seq<LaneView>, sl: int, column: int, l: int)
    requires
        0 <= l <= sl < lanes.len(),
        0 <= column < TILE_COLUMNS,
        forall|k: int| 0 <= k <= sl ==> #[trigger] lanes[k].supports(column),
    ensures
        reachable(lanes, sl, column, l, column),
    decreases sl - l,
{
    if l == sl {
        crate::grid::lemma_start_reachable(lanes, sl, column);
    } else {
        lemma_open_column_path(lanes, sl, column, l + 1);
        assert(lanes[l].supports(column));
        crate::grid::lemma_reachable_closed(lanes, sl, column, l + 1, column, l, column);
    }
}

/// Ids that building a new board may use up.
pub const BOARD_IDS: usize = 4096;

impl Game {
    /// The next lane to enter the board at the far end: lanes are taken
    /// from the queue (refilled with a new section when empty) until one
    /// leaves the player at least two reachable columns of the far lane once
    /// it is in place; a rejected lane's whole section is dropped from the
    /// queue. After `SECTION_ATTEMPTS` rejections, an open lane is made.
    pub fn next_valid_lane(&mut self) -> (lane: Lane)
        requires
            lanes_on_board(lane_views(old(self).lanes@)),
            lanes_on_board(queue_views(old(self).pending_lanes@)),
            old(self).next_section_id <= usize::MAX - RECYCLE_IDS,
            old(self).player_lane < usize::MAX,
        ensures
            lane@.columns_on_board(),
            two_exits(
                seq![lane@] + lane_views(old(self).lanes@),
                (if old(self).player_lane + 1 < LANE_COUNT { old(self).player_lane + 1 } else { LANE_COUNT - 1 }) as int,
                old(self).player_column as int,
            ) || open_clearing_lane(lane@),
            board_unchanged(*old(self), *final(self)),
            lanes_on_board(queue_views(final(self).pending_lanes@)),
            old(self).recent_sections@.len() <= RECENT_SECTION_LIMIT ==> final(self).recent_sections@.len() <= RECENT_SECTION_LIMIT,
            old(self).next_section_id <= final(self).next_section_id <= old(self).next_section_id + RECYCLE_IDS,
            sections_in_order(lane_views(old(self).lanes@), queue_views(old(self).pending_lanes@), old(self).next_section_id)
                ==> sections_in_order(
                seq![lane@] + lane_views(old(self).lanes@),
                queue_views(final(self).pending_lanes@),
                final(self).next_section_id,
            ) || (open_clearing_lane(lane@) && lane@.section_id >= old(self).next_section_id),
            next_lane_drawn(
                lane@,
                (
                    queue_views(old(self).pending_lanes@),
                    old(self).random@,
                    signature_views(old(self).recent_sections@),
                    old(self).next_section_id as int,
                ),
                (
                    queue_views(final(self).pending_lanes@),
                    final(self).random@,
                    signature_views(final(self).recent_sections@),
                    final(self).next_section_id as int,
                ),
                lane_views(old(self).lanes@),
                (if old(self).player_lane + 1 < LANE_COUNT { old(self).player_lane + 1 } else { LANE_COUNT - 1 }) as int,
                old(self).player_column as int,
                old(self).score,
            ),
    {
        let ghost board = lane_views(self.lanes@);
        let ghost score = self.score;
        let ghost mut picks: Seq<(LaneView, Seq<LaneView>, u64, Seq<(SectionKind, Seq<u8>)>, int)> = Seq::empty();
        let ghost mut queues: Seq<Seq<LaneView>> = seq![queue_views(self.pending_lanes@)];
        let ghost mut states: Seq<u64> = seq![self.random@];
        let ghost mut memories: Seq<Seq<(SectionKind, Seq<u8>)>> = seq![signature_views(self.recent_sections@)];
        let ghost mut ids: Seq<int> = seq![self.next_section_id as int];
        let ghost in_order = sections_in_order(
            lane_views(self.lanes@),
            queue_views(self.pending_lanes@),
            self.next_section_id,
        );
        let next_player_lane = if self.player_lane + 1 < LANE_COUNT {
            self.player_lane + 1
        } else {
            LANE_COUNT - 1
        };
        let mut attempt: usize = 0;
        while attempt < SECTION_ATTEMPTS
            invariant
                attempt <= SECTION_ATTEMPTS,
                board_unchanged(*old(self), *self),
                lanes_on_board(lane_views(self.lanes@)),
                lanes_on_board(queue_views(self.pending_lanes@)),
                old(self).recent_sections@.len() <= RECENT_SECTION_LIMIT ==> self.recent_sections@.len() <= RECENT_SECTION_LIMIT,
                old(self).next_section_id <= self.next_section_id <= old(self).next_section_id + attempt,
                old(self).next_section_id <= usize::MAX - RECYCLE_IDS,
                next_player_lane == (if old(self).player_lane + 1 < LANE_COUNT { old(self).player_lane + 1 } else { LANE_COUNT - 1 }),
                in_order == sections_in_order(lane_views(old(self).lanes@), queue_views(old(self).pending_lanes@), old(self).next_section_id),
                in_order ==> sections_in_order(lane_views(self.lanes@), queue_views(self.pending_lanes@), self.next_section_id),
                board == lane_views(self.lanes@),
                score == self.score,
                picks.len() == attempt,
                lane_search(picks, queues, states, memories, ids, board, next_player_lane as int, self.player_column as int, score),
                queues[0] == queue_views(old(self).pending_lanes@),
                states[0] == old(self).random@,
                memories[0] == signature_views(old(self).recent_sections@),
                ids[0] == old(self).next_section_id,
                queues[attempt as int] == queue_views(self.pending_lanes@),
                states[attempt as int] == self.random@,
                memories[attempt as int] == signature_views(self.recent_sections@),
                ids[attempt as int] == self.next_section_id,
            decreases SECTION_ATTEMPTS - attempt,
        {
            let ghost queue_start = queue_views(self.pending_lanes@);
            let ghost state_start = self.random@;
            let ghost memory_start = signature_views(self.recent_sections@);
            let ghost id_start = self.next_section_id as int;
            let ghost mut drawn_section: (Seq<LaneView>, (SectionKind, Seq<u8>)) = (Seq::empty(), (SectionKind::River, Seq::empty()));
            if self.pending_lanes.len() == 0 {
                let ghost section_id = self.next_section_id;
                let ghost queue_before = queue_views(self.pending_lanes@);
                let section = self.generate_next_section();
                proof {
                    lemma_generated_section_on_board(section, section_id);
                    drawn_section = section_view(section);
                }
                extend_queue(&mut self.pending_lanes, &section.lanes);
                proof {
                    assert(queue_views(self.pending_lanes@) =~= lane_views(section.lanes@));
                    if in_order {
                        let board = lane_views(self.lanes@);
                        let q = queue_views(self.pending_lanes@);
                        assert(q =~= lane_views(section.lanes@));
                        assert forall|i: int| 0 <= i < board.len() implies 0 <= #[trigger] board[i].section_id
                            < self.next_section_id by {
                            assert(board[i].section_id < section_id);
                        }
                    }
                }
            }
            let ghost queue = queue_views(self.pending_lanes@);
            proof {
                assert(queue.len() > 0);
                assert(queue[0].columns_on_board());
            }
            let candidate = self.pending_lanes.pop_front().unwrap();
            proof {
                assert(queue_views(self.pending_lanes@) =~= queue.subrange(1, queue.len() as int));
                assert(candidate@ == queue[0]);
            }
            let ghost pick = (
                candidate@,
                queue_views(self.pending_lanes@),
                self.random@,
                signature_views(self.recent_sections@),
                self.next_section_id as int,
            );
            proof {
                assert(queue.skip(1) =~= queue.subrange(1, queue.len() as int));
                if queue_start.len() == 0 {
                    assert(next_section_drawn(drawn_section, state_start, pick.2, score, memory_start, id_start as usize));
                }
                assert(lane_pick(queue_start, state_start, memory_start, id_start, pick, score));
            }
            let mut proposed = copy_lanes(&self.lanes);
            proposed.insert(0, candidate.clone());
            proof {
                assert(lane_views(proposed@) =~= seq![candidate@] + lane_views(self.lanes@));
            }
            let exits = reachable_columns_at_lane(proposed.as_slice(), next_player_lane, self.player_column, 0);
            proof {
                lemma_exit_list_count(lane_views(proposed@), next_player_lane as int, self.player_column as int, exits@);
                assert((exits.len() >= 2) == lane_fits(candidate@, board, next_player_lane as int, self.player_column as int));
            }
            if exits.len() >= 2 {
                proof {
                    if in_order {
                        lemma_take_front_in_order(lane_views(self.lanes@), queue, self.next_section_id);
                    }
                    let views = seq![candidate@] + lane_views(old(self).lanes@);
                    assert(exits@.contains(exits@[0]));
                    assert(exits@.contains(exits@[1]));
                    assert(reachable(views, next_player_lane as int, old(self).player_column as int, 0, exits@[0] as int));
                    assert(reachable(views, next_player_lane as int, old(self).player_column as int, 0, exits@[1] as int));
                    reveal(next_lane_drawn);
                    assert(lane_search(picks, queues, states, memories, ids, board, next_player_lane as int, self.player_column as int, score));
                }
                return candidate;
            }
            let rejected_section = candidate.section_id;
            let ghost before_retain = queue_views(self.pending_lanes@);
            retain_other_sections(&mut self.pending_lanes, rejected_section);
            proof {
                let pred = other_section(rejected_section);
                let after = queue_views(self.pending_lanes@);
                assert forall|k: int| 0 <= k < after.len() implies #[trigger] after[k].columns_on_board() by {
                    assert(after.contains(after[k]));
                    before_retain.lemma_filter_contains_rev(pred, after[k]);
                    let w = choose|w: int| 0 <= w < before_retain.len() && before_retain[w] == after[k];
                    assert(queue[w + 1] == before_retain[w]);
                }
                if in_order {
                    lemma_drop_front_in_order(lane_views(self.lanes@), queue, self.next_section_id, pred);
                }
                let old_picks = picks;
                let old_queues = queues;
                let old_states = states;
                let old_memories = memories;
                let old_ids = ids;
                picks = picks.push(pick);
                queues = queues.push(queue_views(self.pending_lanes@));
                states = states.push(self.random@);
                memories = memories.push(signature_views(self.recent_sections@));
                ids = ids.push(self.next_section_id as int);
                assert(queue_views(self.pending_lanes@) == pick.1.filter(other_section(pick.0.section_id)));
                assert forall|j: int| 0 <= j < picks.len() implies lane_pick(
                    queues[j],
                    states[j],
                    memories[j],
                    ids[j],
                    #[trigger] picks[j],
                    score,
                ) && !lane_fits(picks[j].0, board, next_player_lane as int, self.player_column as int)
                    && queues[j + 1] == picks[j].1.filter(other_section(picks[j].0.section_id)) && states[j + 1]
                    == picks[j].2 && memories[j + 1] == picks[j].3 && ids[j + 1] == picks[j].4 by {
                    if j < attempt {
                        assert(picks[j] == old_picks[j]);
                        assert(queues[j] == old_queues[j]);
                        assert(queues[j + 1] == old_queues[j + 1]);
                        assert(states[j] == old_states[j]);
                        assert(states[j + 1] == old_states[j + 1]);
                        assert(memories[j] == old_memories[j]);
                        assert(memories[j + 1] == old_memories[j + 1]);
                        assert(ids[j] == old_ids[j]);
                        assert(ids[j + 1] == old_ids[j + 1]);
                    }
                }
            }
            attempt = attempt + 1;
        }
        let lane = self.generate_emergency_lane();
        proof {
            reveal(next_lane_drawn);
            assert(lane_search(picks, queues, states, memories, ids, board, next_player_lane as int, self.player_column as int, score));
        }
        lane
    }

    /// Advances the board by one lane: the near lane leaves, a new lane
    /// enters at the far end and the player, carried along, moves one lane
    /// nearer; being carried off the near edge ends the run.
    pub fn recycle_front_lane(&mut self)
        requires
            old(self).well_formed(),
            old(self).next_section_id <= usize::MAX - RECYCLE_IDS,
        ensures
            final(self).well_formed(),
            lane_views(final(self).lanes@) == seq![final(self).lanes@[0]@] + lane_views(old(self).lanes@).subrange(0, LANE_COUNT - 1),
            final(self).player_lane == (if old(self).player_lane + 1 < LANE_COUNT { old(self).player_lane + 1 } else { LANE_COUNT - 1 }),
            final(self).game_over == (old(self).game_over || old(self).player_lane + 1 >= LANE_COUNT),
            final(self).player_column == old(self).player_column,
            final(self).score == old(self).score,
            final(self).paused == old(self).paused,
            old(self).next_section_id <= final(self).next_section_id <= old(self).next_section_id + RECYCLE_IDS,
            two_exits(lane_views(final(self).lanes@), final(self).player_lane as int, final(self).player_column as int)
                || open_clearing_lane(final(self).lanes@[0]@),
            path_exists(lane_views(old(self).lanes@), old(self).player_lane as int, old(self).player_column as int, 0)
                && old(self).player_lane + 1 < LANE_COUNT ==> two_exits(
                lane_views(final(self).lanes@),
                final(self).player_lane as int,
                final(self).player_column as int,
            ),
            sections_in_order(lane_views(old(self).lanes@), queue_views(old(self).pending_lanes@), old(self).next_section_id)
                ==> sections_in_order(
                lane_views(final(self).lanes@),
                queue_views(final(self).pending_lanes@),
                final(self).next_section_id,
            ) || (open_clearing_lane(final(self).lanes@[0]@) && final(self).lanes@[0]@.section_id
                >= old(self).next_section_id),
            next_lane_drawn(
                final(self).lanes@[0]@,
                (
                    queue_views(old(self).pending_lanes@),
                    old(self).random@,
                    signature_views(old(self).recent_sections@),
                    old(self).next_section_id as int,
                ),
                (
                    queue_views(final(self).pending_lanes@),
                    final(self).random@,
                    signature_views(final(self).recent_sections@),
                    final(self).next_section_id as int,
                ),
                lane_views(old(self).lanes@).subrange(0, LANE_COUNT - 1),
                final(self).player_lane as int,
                old(self).player_column as int,
                old(self).score,
            ),
    {
        let ghost before = lane_views(self.lanes@);
        self.lanes.pop();
        proof {
            assert(lane_views(self.lanes@) =~= before.subrange(0, LANE_COUNT - 1));
            if sections_in_order(before, queue_views(self.pending_lanes@), self.next_section_id) {
                lemma_front_part_in_order(before, queue_views(self.pending_lanes@), self.next_section_id, LANE_COUNT - 1);
            }
        }
        let new_lane = self.next_valid_lane();
        self.lanes.insert(0, new_lane);
        proof {
            assert(lane_views(self.lanes@) =~= seq![self.lanes@[0]@] + before.subrange(0, LANE_COUNT - 1));
            assert forall|i: int| 0 <= i < LANE_COUNT implies #[trigger] lane_views(self.lanes@)[i].columns_on_board() by {
                if i > 0 {
                    assert(lane_views(self.lanes@)[i] == before[i - 1]);
                }
            }
        }
        let ghost pl = self.player_lane as int;
        let ghost pc = self.player_column as int;
        proof {
            let after = lane_views(self.lanes@);
            if path_exists(before, pl, pc, 0) && pl + 1 < LANE_COUNT && !two_exits(after, pl + 1, pc) {
                assert(open_clearing_lane(self.lanes@[0]@));
                let c = choose|c: int| #[trigger] reachable(before, pl, pc, 0, c);
                assert forall|j: int| 0 <= j < before.len() - 1 implies #[trigger] after[j + 1] == before[j] by {}
                crate::grid::lemma_reach_row_shift(before, after, pl, pc, 0);
                assert(reachable(after, pl + 1, pc, 1, c));
                assert forall|k: int| 0 <= k < TILE_COLUMNS implies #[trigger] after[0].supports(k) by {
                    assert(after[0] == self.lanes@[0]@);
                }
                crate::grid::lemma_open_front_lane(after, pl + 1, pc, c, 0);
                crate::grid::lemma_open_front_lane(after, pl + 1, pc, c, 1);
                assert(two_exits(after, pl + 1, pc));
            }
        }
        self.player_lane = self.player_lane + 1;
        if self.player_lane >= LANE_COUNT {
            self.player_lane = LANE_COUNT - 1;
            self.game_over = true;
        }
    }

    /// Builds a first board: a forest section (two of them when the first
    /// has only two lanes), a river section, then further sections until
    /// seven lanes are drawn. The lanes beyond the seventh wait in the queue;
    /// the board lists the drawn lanes from the farthest to the nearest.
    pub fn generate_initial_world_window(&mut self) -> (lanes: Vec<Lane>)
        requires
            old(self).next_section_id <= usize::MAX - 8,
            lanes_on_board(queue_views(old(self).pending_lanes@)),
        ensures
            lanes@.len() == LANE_COUNT,
            lanes_on_board(lane_views(lanes@)),
            lanes_on_board(queue_views(final(self).pending_lanes@)),
            final(self).recent_sections@.len() <= RECENT_SECTION_LIMIT,
            old(self).next_section_id < final(self).next_section_id <= old(self).next_section_id + 5,
            board_unchanged(*old(self), *final(self)),
            old(self).pending_lanes@.len() == 0 ==> drawn_board(
                lane_views(lanes@),
                queue_views(final(self).pending_lanes@),
                final(self).next_section_id,
            ),
            queue_views(final(self).pending_lanes@).take(old(self).pending_lanes@.len() as int) == queue_views(
                old(self).pending_lanes@,
            ),
            window_drawn(
                lane_views(lanes@),
                queue_views(final(self).pending_lanes@).skip(old(self).pending_lanes@.len() as int),
                old(self).random@,
                final(self).random@,
                signature_views(old(self).recent_sections@),
                signature_views(final(self).recent_sections@),
                old(self).score,
                old(self).next_section_id as int,
                (final(self).next_section_id - old(self).next_section_id) as nat,
            ),
    {
        let ghost first_id = self.next_section_id;
        let ghost score = self.score;
        let ghost mut sections: Seq<(Seq<LaneView>, (SectionKind, Seq<u8>))> = Seq::empty();
        let ghost mut states: Seq<u64> = seq![self.random@];
        let ghost mut memories: Seq<Seq<(SectionKind, Seq<u8>)>> = seq![signature_views(self.recent_sections@)];
        let mut stream: Vec<Lane> = Vec::new();
        let starting_forest = self.generate_forest_section();
        proof {
            lemma_generated_section_on_board(starting_forest, first_id);
            lemma_joined_push(sections, section_view(starting_forest));
            sections = sections.push(section_view(starting_forest));
            states = states.push(self.random@);
            memories = memories.push(signature_views(self.recent_sections@));
        }
        append_lanes(&mut stream, &starting_forest.lanes);
        proof {
            lemma_append_section_ids(Seq::empty(), lane_views(starting_forest.lanes@), first_id as int, first_id as int);
            assert(lane_views(stream@) =~= Seq::<LaneView>::empty() + lane_views(starting_forest.lanes@));
            assert(joined_lanes(sections, 0) == Seq::<LaneView>::empty());
            assert(lane_views(stream@) == joined_lanes(sections, 1));
        }
        while stream.len() < 3
            invariant
                first_id == old(self).next_section_id,
                first_id <= usize::MAX - 8,
                first_id < self.next_section_id,
                2 * (self.next_section_id - first_id) <= stream@.len() <= 6,
                lanes_on_board(lane_views(stream@)),
                ids_non_decreasing(lane_views(stream@)),
                ids_within(lane_views(stream@), first_id as int, self.next_section_id as int),
                forall|i: int| 0 <= i < stream@.len() ==> (#[trigger] lane_views(stream@)[i]).environment == Environment::Forest,
                self.recent_sections@.len() <= RECENT_SECTION_LIMIT,
                self.pending_lanes == old(self).pending_lanes,
                board_unchanged(*old(self), *self),
                score == old(self).score,
                sections.len() == self.next_section_id - first_id,
                1 <= sections.len(),
                states.len() == sections.len() + 1,
                states[0] == old(self).random@,
                states[sections.len() as int] == self.random@,
                memories[0] == signature_views(old(self).recent_sections@),
                memories[sections.len() as int] == signature_views(self.recent_sections@),
                memory_chain(sections, memories),
                forest_opening(sections, states, memories, sections.len() as int, score, first_id as int),
                lane_views(stream@) == joined_lanes(sections, sections.len() as int),
            decreases 10 - stream@.len(),
        {
            let ghost id = self.next_section_id;
            let ghost before = lane_views(stream@);
            let forest = self.generate_forest_section();
            proof {
                lemma_generated_section_on_board(forest, id);
                lemma_append_section_ids(before, lane_views(forest.lanes@), id as int, first_id as int);
                let n = sections.len() as int;
                let old_sections = sections;
                let old_states = states;
                let old_memories = memories;
                lemma_joined_push(sections, section_view(forest));
                sections = sections.push(section_view(forest));
                states = states.push(self.random@);
                memories = memories.push(signature_views(self.recent_sections@));
                assert forall|i: int| 0 <= i < sections.len() implies memories[i + 1] == keep_recent(
                    memories[i].push((#[trigger] sections[i]).1),
                ) by {
                    if i < n {
                        assert(sections[i] == old_sections[i]);
                        assert(memories[i] == old_memories[i]);
                        assert(memories[i + 1] == old_memories[i + 1]);
                    }
                }
                assert forall|i: int| 0 <= i < sections.len() implies forest_section_searched(
                    #[trigger] sections[i],
                    states[i],
                    states[i + 1],
                    score,
                    last_forest_kind(memories[i]),
                    memories[i],
                    (first_id + i) as usize,
                ) && (1 <= i ==> joined_lanes(sections, i).len() < 3) by {
                    if i < n {
                        assert(sections[i] == old_sections[i]);
                        assert(states[i] == old_states[i]);
                        assert(states[i + 1] == old_states[i + 1]);
                        assert(memories[i] == old_memories[i]);
                    }
                }
            }
            append_lanes(&mut stream, &forest.lanes);
            proof {
                let after = lane_views(stream@);
                assert forall|i: int| 0 <= i < stream@.len() implies (#[trigger] after[i]).environment == Environment::Forest by {
                    if i >= before.len() {
                        assert(after[i] == lane_views(forest.lanes@)[i - before.len()]);
                    } else {
                        assert(after[i] == before[i]);
                    }
                }
            }
        }
        let ghost forest_len = stream@.len() as int;
        let ghost river_id = self.next_section_id;
        let ghost before_river = lane_views(stream@);
        let ghost river_at = sections.len() as int;
        let first_river = self.generate_river_section();
        proof {
            lemma_generated_section_on_board(first_river, river_id);
            lemma_append_section_ids(before_river, lane_views(first_river.lanes@), river_id as int, first_id as int);
            let old_sections = sections;
            let old_states = states;
            let old_memories = memories;
            lemma_joined_push(sections, section_view(first_river));
            sections = sections.push(section_view(first_river));
            states = states.push(self.random@);
            memories = memories.push(signature_views(self.recent_sections@));
            assert forall|i: int| 0 <= i < sections.len() implies memories[i + 1] == keep_recent(
                memories[i].push((#[trigger] sections[i]).1),
            ) by {
                if i < river_at {
                    assert(sections[i] == old_sections[i]);
                    assert(memories[i] == old_memories[i]);
                    assert(memories[i + 1] == old_memories[i + 1]);
                }
            }
            assert forall|i: int| 0 <= i < river_at implies forest_section_searched(
                #[trigger] sections[i],
                states[i],
                states[i + 1],
                score,
                last_forest_kind(memories[i]),
                memories[i],
                (first_id + i) as usize,
            ) && (1 <= i ==> joined_lanes(sections, i).len() < 3) by {
                assert(sections[i] == old_sections[i]);
                assert(states[i] == old_states[i]);
                assert(states[i + 1] == old_states[i + 1]);
                assert(memories[i] == old_memories[i]);
                assert(forest_section_searched(
                    old_sections[i],
                    old_states[i],
                    old_states[i + 1],
                    score,
                    last_forest_kind(old_memories[i]),
                    old_memories[i],
                    (first_id + i) as usize,
                ) && (1 <= i ==> joined_lanes(old_sections, i).len() < 3));
            }
            assert(river_and_rest(sections, states, memories, river_at, score, first_id as int));
        }
        append_lanes(&mut stream, &first_river.lanes);
        proof {
            let after = lane_views(stream@);
            assert(after[forest_len] == lane_views(first_river.lanes@)[0]);
            assert forall|i: int| 0 <= i < 3 implies (#[trigger] after[i]).environment == Environment::Forest by {
                assert(after[i] == before_river[i]);
            }
        }
        while stream.len() < LANE_COUNT
            invariant
                first_id == old(self).next_section_id,
                first_id <= usize::MAX - 8,
                first_id < self.next_section_id,
                2 * (self.next_section_id - first_id) <= stream@.len() <= 10,
                lanes_on_board(lane_views(stream@)),
                ids_non_decreasing(lane_views(stream@)),
                ids_within(lane_views(stream@), first_id as int, self.next_section_id as int),
                3 <= forest_len <= 6,
                forest_len < stream@.len(),
                lane_views(stream@)[forest_len].environment == Environment::River,
                forall|i: int| 0 <= i < 3 ==> (#[trigger] lane_views(stream@)[i]).environment == Environment::Forest,
                self.recent_sections@.len() <= RECENT_SECTION_LIMIT,
                self.pending_lanes == old(self).pending_lanes,
                board_unchanged(*old(self), *self),
                score == old(self).score,
                sections.len() == self.next_section_id - first_id,
                1 <= river_at < sections.len(),
                states.len() == sections.len() + 1,
                states[0] == old(self).random@,
                states[sections.len() as int] == self.random@,
                memories[0] == signature_views(old(self).recent_sections@),
                memories[sections.len() as int] == signature_views(self.recent_sections@),
                memory_chain(sections, memories),
                forest_opening(sections, states, memories, river_at, score, first_id as int),
                joined_lanes(sections, river_at).len() >= 3,
                river_and_rest(sections, states, memories, river_at, score, first_id as int),
                lane_views(stream@) == joined_lanes(sections, sections.len() as int),
            decreases 10 - stream@.len(),
        {
            let ghost id = self.next_section_id;
            let ghost before = lane_views(stream@);
            let section = self.generate_next_section();
            proof {
                lemma_generated_section_on_board(section, id);
                lemma_append_section_ids(before, lane_views(section.lanes@), id as int, first_id as int);
                let n = sections.len() as int;
                let old_sections = sections;
                let old_states = states;
                let old_memories = memories;
                lemma_joined_push(sections, section_view(section));
                sections = sections.push(section_view(section));
                states = states.push(self.random@);
                memories = memories.push(signature_views(self.recent_sections@));
                assert forall|i: int| 0 <= i < sections.len() implies memories[i + 1] == keep_recent(
                    memories[i].push((#[trigger] sections[i]).1),
                ) by {
                    if i < n {
                        assert(sections[i] == old_sections[i]);
                        assert(memories[i] == old_memories[i]);
                        assert(memories[i + 1] == old_memories[i + 1]);
                    }
                }
                assert forall|i: int| 0 <= i < river_at implies forest_section_searched(
                    #[trigger] sections[i],
                    states[i],
                    states[i + 1],
                    score,
                    last_forest_kind(memories[i]),
                    memories[i],
                    (first_id + i) as usize,
                ) && (1 <= i ==> joined_lanes(sections, i).len() < 3) by {
                    assert(sections[i] == old_sections[i]);
                    assert(states[i] == old_states[i]);
                    assert(states[i + 1] == old_states[i + 1]);
                    assert(memories[i] == old_memories[i]);
                    assert(forest_section_searched(
                        old_sections[i],
                        old_states[i],
                        old_states[i + 1],
                        score,
                        last_forest_kind(old_memories[i]),
                        old_memories[i],
                        (first_id + i) as usize,
                    ) && (1 <= i ==> joined_lanes(old_sections, i).len() < 3));
                }
                assert(sections[river_at] == old_sections[river_at]);
                assert(states[river_at] == old_states[river_at]);
                assert(states[river_at + 1] == old_states[river_at + 1]);
                assert(memories[river_at] == old_memories[river_at]);
                assert forall|i: int| river_at < i < sections.len() implies next_section_drawn(
                    #[trigger] sections[i],
                    states[i],
                    states[i + 1],
                    score,
                    memories[i],
                    (first_id + i) as usize,
                ) && joined_lanes(sections, i).len() < 7 by {
                    if i < n {
                        assert(sections[i] == old_sections[i]);
                        assert(states[i] == old_states[i]);
                        assert(states[i + 1] == old_states[i + 1]);
                        assert(memories[i] == old_memories[i]);
                        assert(next_section_drawn(
                            old_sections[i],
                            old_states[i],
                            old_states[i + 1],
                            score,
                            old_memories[i],
                            (first_id + i) as usize,
                        ) && joined_lanes(old_sections, i).len() < 7);
                    }
                }
            }
            append_lanes(&mut stream, &section.lanes);
            proof {
                let after = lane_views(stream@);
                assert(after[forest_len] == before[forest_len]);
                assert forall|i: int| 0 <= i < 3 implies (#[trigger] after[i]).environment == Environment::Forest by {
                    assert(after[i] == before[i]);
                }
            }
        }
        let ghost whole = lane_views(stream@);
        let future = stream.split_off(LANE_COUNT);
        proof {
            assert(lane_views(future@) =~= whole.subrange(LANE_COUNT as int, whole.len() as int));
            assert(lane_views(stream@) =~= whole.subrange(0, LANE_COUNT as int));
        }
        let ghost queue_before = queue_views(self.pending_lanes@);
        extend_queue(&mut self.pending_lanes, &future);
        proof {
            let q = queue_views(self.pending_lanes@);
            assert forall|k: int| 0 <= k < q.len() implies #[trigger] q[k].columns_on_board() by {
                if k < queue_before.len() {
                    assert(q[k] == queue_before[k]);
                } else {
                    assert(q[k] == lane_views(future@)[k - queue_before.len()]);
                }
            }
        }
        let mut lanes: Vec<Lane> = Vec::new();
        while lanes.len() < LANE_COUNT
            invariant
                lanes@.len() <= LANE_COUNT,
                stream@.len() == LANE_COUNT,
                lanes_on_board(lane_views(stream@)),
                forall|j: int| 0 <= j < lanes@.len() ==> (#[trigger] lanes@[j])@ == stream@[LANE_COUNT - 1 - j]@,
            decreases LANE_COUNT - lanes@.len(),
        {
            let lane = stream[LANE_COUNT - 1 - lanes.len()].clone();
            lanes.push(lane);
        }
        proof {
            let board = lane_views(lanes@);
            assert forall|j: int| 0 <= j < lanes@.len() implies #[trigger] board[j].columns_on_board() by {
                assert(lane_views(stream@)[LANE_COUNT - 1 - j].columns_on_board());
            }
            assert forall|j: int| 0 <= j < LANE_COUNT implies #[trigger] board[j] == whole[LANE_COUNT - 1 - j] by {
                assert(lanes@[j]@ == stream@[LANE_COUNT - 1 - j]@);
                assert(lane_views(stream@)[LANE_COUNT - 1 - j] == whole[LANE_COUNT - 1 - j]);
            }
            if queue_before.len() == 0 {
                let q = queue_views(self.pending_lanes@);
                let next = self.next_section_id as int;
                assert forall|k: int| 0 <= k < q.len() implies #[trigger] q[k] == whole[LANE_COUNT + k] by {
                    assert(q[k] == lane_views(future@)[k]);
                }
                assert(ids_non_increasing(board)) by {
                    assert forall|i: int, j: int| 0 <= i < j < board.len() implies board[j].section_id
                        <= board[i].section_id by {
                        assert(board[i] == whole[LANE_COUNT - 1 - i]);
                        assert(board[j] == whole[LANE_COUNT - 1 - j]);
                    }
                }
                assert(ids_non_decreasing(q)) by {
                    assert forall|i: int, j: int| 0 <= i < j < q.len() implies q[i].section_id <= q[j].section_id by {
                        assert(q[i] == whole[LANE_COUNT + i]);
                        assert(q[j] == whole[LANE_COUNT + j]);
                    }
                }
                assert forall|i: int, k: int| 0 <= i < board.len() && 0 <= k < q.len() implies board[i].section_id
                    <= q[k].section_id by {
                    assert(board[i] == whole[LANE_COUNT - 1 - i]);
                    assert(q[k] == whole[LANE_COUNT + k]);
                }
                assert(ids_within(board, 0, next)) by {
                    assert forall|i: int| 0 <= i < board.len() implies 0 <= #[trigger] board[i].section_id < next by {
                        assert(board[i] == whole[LANE_COUNT - 1 - i]);
                    }
                }
                assert(ids_within(q, 0, next)) by {
                    assert forall|k: int| 0 <= k < q.len() implies 0 <= #[trigger] q[k].section_id < next by {
                        assert(q[k] == whole[LANE_COUNT + k]);
                    }
                }
                assert forall|i: int| LANE_COUNT - 3 <= i < LANE_COUNT implies #[trigger] board[i].environment
                    == Environment::Forest by {
                    assert(board[i] == whole[LANE_COUNT - 1 - i]);
                }
                assert(board[LANE_COUNT - 1 - forest_len] == whole[forest_len]);
                assert(board[LANE_COUNT - 1 - forest_len].environment == Environment::River);
            }
            let n = sections.len();
            let q = queue_views(self.pending_lanes@);
            assert(q.skip(queue_before.len() as int) =~= whole.skip(LANE_COUNT as int));
            assert(board =~= whole.take(LANE_COUNT as int).reverse());
            assert(window_sections(sections, states, memories, river_at, score, first_id as int)) by {
                reveal(window_sections);
            }
            reveal(window_drawn);
            assert(window_drawn(
                board,
                q.skip(queue_before.len() as int),
                states[0],
                states[n as int],
                memories[0],
                memories[n as int],
                score,
                first_id as int,
                n,
            ));
        }
        lanes
    }

    /// Draws a candidate first board with nothing queued or remembered,
    /// and rates it: the sideways steps the best path to the far lane needs
    /// and the number of reachable far columns, or nothing when the far lane
    /// cannot be reached.
    fn draw_board_attempt(&mut self) -> (result: (Vec<Lane>, Option<(usize, usize)>))
        requires
            old(self).player_lane < LANE_COUNT,
            old(self).player_column < TILE_COLUMNS,
            old(self).next_section_id <= usize::MAX - 8,
        ensures
            result.0@.len() == LANE_COUNT,
            lanes_on_board(lane_views(result.0@)),
            lanes_on_board(queue_views(final(self).pending_lanes@)),
            final(self).recent_sections@.len() <= RECENT_SECTION_LIMIT,
            old(self).next_section_id < final(self).next_section_id <= old(self).next_section_id + 5,
            board_unchanged(*old(self), *final(self)),
            drawn_board(lane_views(result.0@), queue_views(final(self).pending_lanes@), final(self).next_section_id),
            attempt_drawn(
                (lane_views(result.0@), queue_views(final(self).pending_lanes@), signature_views(final(self).recent_sections@)),
                old(self).random@,
                final(self).random@,
                old(self).score,
                old(self).next_section_id as int,
                final(self).next_section_id as int,
            ),
            match result.1 {
                None => fewest_lateral_moves(
                    lane_views(result.0@),
                    old(self).player_lane as int,
                    old(self).player_column as int,
                    0,
                ) is None,
                Some((m, e)) => {
                    &&& fewest_lateral_moves(
                        lane_views(result.0@),
                        old(self).player_lane as int,
                        old(self).player_column as int,
                        0,
                    ) == Some(m as nat)
                    &&& e == exit_count(lane_views(result.0@), old(self).player_lane as int, old(self).player_column as int)
                    &&& m <= 6 * LANE_COUNT
                    &&& e <= TILE_COLUMNS
                    &&& path_exists(lane_views(result.0@), old(self).player_lane as int, old(self).player_column as int, 0)
                },
            },
    {
        self.pending_lanes.clear();
        self.recent_sections.clear();
        proof {
            assert(queue_views(self.pending_lanes@) =~= Seq::<LaneView>::empty());
            assert(signature_views(self.recent_sections@) =~= Seq::<(SectionKind, Seq<u8>)>::empty());
        }
        let ghost start = self.random@;
        let ghost first_id = self.next_section_id;
        let lanes = self.generate_initial_world_window();
        proof {
            let q = queue_views(self.pending_lanes@);
            assert(q.skip(0) =~= q);
            let count = (self.next_section_id - first_id) as nat;
            assert(window_drawn(
                lane_views(lanes@),
                q,
                start,
                self.random@,
                Seq::empty(),
                signature_views(self.recent_sections@),
                self.score,
                first_id as int,
                count,
            ));
            let att = (lane_views(lanes@), q, signature_views(self.recent_sections@));
            assert(window_drawn(att.0, att.1, start, self.random@, Seq::empty(), att.2, self.score, first_id as int, count));
            assert(attempt_drawn(att, start, self.random@, self.score, first_id as int, self.next_section_id as int));
        }
        let lateral = minimum_lateral_moves(lanes.as_slice(), self.player_lane, self.player_column, 0);
        let ghost lv = lane_views(lanes@);
        let ghost pl = self.player_lane as int;
        let ghost pc = self.player_column as int;
        proof {
            crate::grid::lemma_lateral_moves_iff_path(lv, pl, pc, 0);
        }
        match lateral {
            None => (lanes, None),
            Some(lateral_moves) => {
                let exits = reachable_columns_at_lane(lanes.as_slice(), self.player_lane, self.player_column, 0);
                proof {
                    assert forall|i: int| 0 <= i < exits@.len() implies exits@[i] < TILE_COLUMNS by {
                        assert(exits@.contains(exits@[i]));
                        crate::grid::lemma_reachable_is_open(lv, pl, pc, 0, exits@[i] as int);
                    }
                    lemma_increasing_columns_len(exits@);
                    lemma_increasing_set_len(exits@);
                    assert(exits@.to_set() =~= Set::new(|c: usize| reachable(lv, pl, pc, 0, c as int)));
                    let c = choose|c: int| #[trigger] reachable(lv, pl, pc, 0, c);
                    assert(path_exists(lv, pl, pc, 0));
                }
                let exit_count = exits.len();
                (lanes, Some((lateral_moves, exit_count)))
            },
        }
    }

    /// Fills the board: up to `BOARD_ATTEMPTS` boards are drawn; the first
    /// one that makes the player step sideways at least twice and leaves at
    /// least two reachable columns on the far lane is kept at once. Otherwise
    /// the best board that can be crossed is kept (sideways steps count ten,
    /// reachable far columns three); failing that, an emergency board with
    /// the player's column left open.
    pub fn populate_initial_lanes(&mut self)
        requires
            old(self).player_lane < LANE_COUNT,
            old(self).player_column < TILE_COLUMNS,
            old(self).next_section_id <= usize::MAX - BOARD_IDS,
        ensures
            final(self).lanes@.len() == LANE_COUNT,
            lanes_on_board(lane_views(final(self).lanes@)),
            lanes_on_board(queue_views(final(self).pending_lanes@)),
            final(self).recent_sections@.len() <= RECENT_SECTION_LIMIT,
            final(self).player_lane == old(self).player_lane,
            final(self).player_column == old(self).player_column,
            final(self).score == old(self).score,
            final(self).game_over == old(self).game_over,
            final(self).paused == old(self).paused,
            old(self).next_section_id <= final(self).next_section_id <= old(self).next_section_id + BOARD_IDS,
            path_exists(
                lane_views(final(self).lanes@),
                final(self).player_lane as int,
                final(self).player_column as int,
                0,
            ),
            drawn_board(
                lane_views(final(self).lanes@),
                queue_views(final(self).pending_lanes@),
                final(self).next_section_id,
            ) || emergency_board(lane_views(final(self).lanes@), final(self).player_column),
            first_board_drawn(
                lane_views(final(self).lanes@),
                queue_views(final(self).pending_lanes@),
                signature_views(final(self).recent_sections@),
                old(self).random@,
                final(self).random@,
                old(self).score,
                old(self).player_lane as int,
                old(self).player_column,
                old(self).next_section_id as int,
                final(self).next_section_id as int,
            ),
    {
        let ghost pl = self.player_lane as int;
        let ghost pc = self.player_column as int;
        let ghost score = self.score;
        let mut has_best = false;
        let ghost mut best_next: usize = 0;
        let ghost mut best_index: int = 0;
        let ghost mut attempts: Seq<(Seq<LaneView>, Seq<LaneView>, Seq<(SectionKind, Seq<u8>)>)> = Seq::empty();
        let ghost mut states: Seq<u64> = seq![self.random@];
        let ghost mut ids: Seq<int> = seq![self.next_section_id as int];
        let mut best_quality: usize = 0;
        let mut best_lanes: Vec<Lane> = Vec::new();
        let mut best_pending: VecDeque<Lane> = VecDeque::new();
        let mut best_recent: VecDeque<SectionSignature> = VecDeque::new();
        let mut attempt: usize = 0;
        while attempt < BOARD_ATTEMPTS
            invariant
                attempt <= BOARD_ATTEMPTS,
                self.player_lane == old(self).player_lane,
                self.player_column == old(self).player_column,
                self.score == old(self).score,
                self.game_over == old(self).game_over,
                self.paused == old(self).paused,
                self.player_lane < LANE_COUNT,
                self.player_column < TILE_COLUMNS,
                pl == self.player_lane,
                pc == self.player_column,
                score == self.score,
                old(self).next_section_id <= usize::MAX - BOARD_IDS,
                old(self).next_section_id <= self.next_section_id <= old(self).next_section_id + 5 * attempt,
                attempt > 0 ==> lanes_on_board(queue_views(self.pending_lanes@)),
                attempt > 0 ==> self.recent_sections@.len() <= RECENT_SECTION_LIMIT,
                attempts.len() == attempt,
                board_attempts(attempts, states, ids, score),
                states[0] == old(self).random@,
                states[attempt as int] == self.random@,
                ids[0] == old(self).next_section_id,
                ids[attempt as int] == self.next_section_id,
                forall|j: int| 0 <= j < attempt ==> !board_kept_at_once((#[trigger] attempts[j]).0, pl, pc),
                attempt > 0 ==> queue_views(self.pending_lanes@) == attempts[attempt - 1].1
                    && signature_views(self.recent_sections@) == attempts[attempt - 1].2,
                has_best ==> ({
                    &&& best_lanes@.len() == LANE_COUNT
                    &&& drawn_board(lane_views(best_lanes@), queue_views(best_pending@), best_next)
                    &&& best_next <= self.next_section_id
                    &&& lanes_on_board(lane_views(best_lanes@))
                    &&& lanes_on_board(queue_views(best_pending@))
                    &&& best_recent@.len() <= RECENT_SECTION_LIMIT
                    &&& path_exists(lane_views(best_lanes@), pl, pc, 0)
                    &&& 0 <= best_index < attempt
                    &&& attempts[best_index] == (
                        lane_views(best_lanes@),
                        queue_views(best_pending@),
                        signature_views(best_recent@),
                    )
                    &&& board_quality(attempts[best_index].0, pl, pc) == Some(best_quality as nat)
                    &&& best_quality > 0
                    &&& forall|j: int|
                        0 <= j < best_index ==> match board_quality((#[trigger] attempts[j]).0, pl, pc) {
                            Some(p) => p < best_quality,
                            None => true,
                        }
                    &&& forall|j: int|
                        best_index < j < attempt ==> match board_quality((#[trigger] attempts[j]).0, pl, pc) {
                            Some(p) => p <= best_quality,
                            None => true,
                        }
                }),
                !has_best ==> best_quality == 0 && forall|j: int|
                    0 <= j < attempt ==> match board_quality((#[trigger] attempts[j]).0, pl, pc) {
                        Some(p) => p == 0,
                        None => true,
                    },
            decreases BOARD_ATTEMPTS - attempt,
        {
            let ghost before = attempts;
            let ghost state_before = states;
            let ghost ids_before = ids;
            let (lanes, rating) = self.draw_board_attempt();
            let ghost record = (
                lane_views(lanes@),
                queue_views(self.pending_lanes@),
                signature_views(self.recent_sections@),
            );
            proof {
                attempts = attempts.push(record);
                states = states.push(self.random@);
                ids = ids.push(self.next_section_id as int);
                assert forall|j: int| 0 <= j < attempts.len() implies attempt_drawn(
                    #[trigger] attempts[j],
                    states[j],
                    states[j + 1],
                    score,
                    ids[j],
                    ids[j + 1],
                ) by {
                    if j < attempt {
                        assert(attempts[j] == before[j]);
                        assert(states[j] == state_before[j]);
                        assert(states[j + 1] == state_before[j + 1]);
                        assert(ids[j] == ids_before[j]);
                        assert(ids[j + 1] == ids_before[j + 1]);
                    }
                }
                assert(forall|j: int| 0 <= j < attempt ==> #[trigger] attempts[j] == before[j]);
            }
            match rating {
                None => {
                    proof {
                        assert(board_quality(record.0, pl, pc) is None);
                        assert(!board_kept_at_once(record.0, pl, pc));
                    }
                },
                Some(pair) => {
                    let lateral_moves = pair.0;
                    let exit_count = pair.1;
                    let quality = lateral_moves * 10 + exit_count * 3;
                    proof {
                        assert(board_quality(record.0, pl, pc) == Some(quality as nat));
                    }
                    if quality > best_quality {
                        best_quality = quality;
                        best_lanes = copy_lanes(&lanes);
                        best_pending = copy_queue(&self.pending_lanes);
                        best_recent = copy_signatures(&self.recent_sections);
                        has_best = true;
                        proof {
                            best_next = self.next_section_id;
                            best_index = attempt as int;
                            assert(best_recent@.len() == signature_views(best_recent@).len());
                        }
                    }
                    if lateral_moves >= 2 && exit_count >= 2 {
                        let ghost lv = lane_views(lanes@);
                        self.lanes = lanes;
                        proof {
                            assert(lane_views(self.lanes@) == lv);
                            assert(path_exists(lane_views(self.lanes@), pl, pc, 0));
                            assert(drawn_board(lane_views(self.lanes@), queue_views(self.pending_lanes@), self.next_section_id));
                            assert(board_kept_at_once(record.0, pl, pc));
                            reveal(first_board_drawn);
                            assert(board_attempts(attempts, states, ids, score));
                        }
                        return;
                    }
                    proof {
                        assert(!board_kept_at_once(record.0, pl, pc));
                    }
                },
            }
            attempt = attempt + 1;
        }
        proof {
            assert(!board_kept_at_once(attempts[BOARD_ATTEMPTS - 1].0, pl, pc));
            if has_best {
                assert(best_attempt(attempts, pl, pc, best_index));
            } else {
                assert forall|b: int| !best_attempt(attempts, pl, pc, b) by {
                    if 0 <= b < attempts.len() {
                        assert(match board_quality(attempts[b].0, pl, pc) {
                            Some(p) => p == 0,
                            None => true,
                        });
                    }
                }
            }
        }
        if has_best {
            let ghost lv = lane_views(best_lanes@);
            self.lanes = best_lanes;
            self.pending_lanes = best_pending;
            self.recent_sections = best_recent;
            proof {
                assert(lane_views(self.lanes@) == lv);
                assert(path_exists(lane_views(self.lanes@), pl, pc, 0));
                lemma_drawn_board_later(lane_views(self.lanes@), queue_views(self.pending_lanes@), best_next, self.next_section_id);
                reveal(first_board_drawn);
                assert forall|b: int| best_attempt(attempts, pl, pc, b) implies b == best_index by {
                    if b < best_index {
                        assert(match board_quality((attempts[b]).0, pl, pc) {
                            Some(p) => p < best_quality,
                            None => true,
                        });
                    } else if b > best_index {
                        assert(match board_quality((attempts[best_index]).0, pl, pc) {
                            Some(p) => p < board_quality(attempts[b].0, pl, pc)->0,
                            None => true,
                        });
                    }
                }
            }
            return;
        }
        let ghost column = self.player_column;
        let ghost emergency_start = self.random@;
        let lanes = self.emergency_forest_window();
        proof {
            let views = lane_views(lanes@);
            assert forall|k: int| 0 <= k <= self.player_lane as int implies #[trigger] views[k].supports(column as int) by {
                assert(lanes@[k]@ == views[k]);
            }
            lemma_open_column_path(views, self.player_lane as int, column as int, 0);
            assert forall|i: int| 0 <= i < views.len() implies #[trigger] views[i].columns_on_board() by {
                assert(lanes@[i]@ == views[i]);
            }
        }
        let ghost lv = lane_views(lanes@);
        self.lanes = lanes;
        proof {
            assert(lane_views(self.lanes@) == lv);
            assert(reachable(lane_views(self.lanes@), self.player_lane as int, column as int, 0, column as int));
            assert(path_exists(lane_views(self.lanes@), self.player_lane as int, column as int, 0));
            let board = lane_views(self.lanes@);
            assert forall|i: int| 0 <= i < board.len() implies (#[trigger] board[i]).environment == Environment::Forest
                && board[i].section_kind == SectionKind::Forest(ForestSectionKind::Grove)
                && board[i].section_id == board[0].section_id
                && !board[i].obstacles.contains(column) by {
                assert(board[i] == self.lanes@[i]@);
                assert(board[0] == self.lanes@[0]@);
            }
            assert(emergency_board(board, self.player_column));
            let es = choose|es: Seq<u64>|
                {
                    &&& es.len() == LANE_COUNT + 1
                    &&& es[0] == emergency_start
                    &&& es[LANE_COUNT as int] == self.random@
                    &&& forall|i: int|
                        0 <= i < LANE_COUNT ==> forest_lane_drawn(
                            (#[trigger] lanes@[i])@,
                            es[i],
                            es[i + 1],
                            (3 + i % 2) as nat,
                            Some(column),
                        )
                };
            assert forall|i: int| 0 <= i < LANE_COUNT implies forest_lane_drawn(
                #[trigger] board[i],
                es[i],
                es[i + 1],
                (3 + i % 2) as nat,
                Some(column),
            ) && forest_lane(
                board[i],
                (self.next_section_id - 1) as usize,
                ForestSectionKind::Grove,
                (3 + i % 2) as nat,
                Some(column),
            ) by {
                assert(board[i] == lanes@[i]@);
            }
            assert(state_chain(es, LANE_COUNT as nat, emergency_start, self.random@));
            assert(emergency_drawn(board, emergency_start, self.random@, column, self.next_section_id - 1));
            reveal(first_board_drawn);
        }
    }

    /// A new run drawn from `seed`: the player stands in the middle column,
    /// three lanes from the back, with no score; the board has a way through
    /// to the far lane.
    pub fn with_seed(seed: u64) -> (game: Self)
        ensures
            game.well_formed(),
            game.player_column == TILE_COLUMNS / 2,
            game.player_lane == LANE_COUNT - 3,
            game.score == 0,
            !game.game_over,
            !game.paused,
            game.next_section_id <= BOARD_IDS,
            path_exists(lane_views(game.lanes@), game.player_lane as int, game.player_column as int, 0),
            open_tile(lane_views(game.lanes@), game.player_lane as int, game.player_column as int),
            drawn_board(lane_views(game.lanes@), queue_views(game.pending_lanes@), game.next_section_id)
                || emergency_board(lane_views(game.lanes@), game.player_column),
            first_board_drawn(
                lane_views(game.lanes@),
                queue_views(game.pending_lanes@),
                signature_views(game.recent_sections@),
                seed,
                game.random@,
                0,
                LANE_COUNT - 3,
                TILE_COLUMNS / 2,
                0,
                game.next_section_id as int,
            ),
    {
        let mut game = Game {
            lanes: Vec::new(),
            player_column: TILE_COLUMNS / 2,
            player_lane: LANE_COUNT - 3,
            score: 0,
            game_over: false,
            paused: false,
            next_section_id: 0,
            pending_lanes: VecDeque::new(),
            recent_sections: VecDeque::new(),
            random: Random::new(seed),
        };
        game.populate_initial_lanes();
        proof {
            let lv = lane_views(game.lanes@);
            let c = choose|c: int| #[trigger] reachable(lv, game.player_lane as int, game.player_column as int, 0, c);
            crate::grid::lemma_reachable_start_open(lv, game.player_lane as int, game.player_column as int, 0, c);
        }
        game
    }

    /// Starts a new run drawn from `seed`, as `with_seed` does.
    pub fn reset(&mut self, seed: u64)
        ensures
            final(self).well_formed(),
            final(self).player_column == TILE_COLUMNS / 2,
            final(self).player_lane == LANE_COUNT - 3,
            final(self).score == 0,
            !final(self).game_over,
            !final(self).paused,
            final(self).next_section_id <= BOARD_IDS,
            path_exists(
                lane_views(final(self).lanes@),
                final(self).player_lane as int,
                final(self).player_column as int,
                0,
            ),
            open_tile(lane_views(final(self).lanes@), final(self).player_lane as int, final(self).player_column as int),
            drawn_board(lane_views(final(self).lanes@), queue_views(final(self).pending_lanes@), final(self).next_section_id)
                || emergency_board(lane_views(final(self).lanes@), final(self).player_column),
            first_board_drawn(
                lane_views(final(self).lanes@),
                queue_views(final(self).pending_lanes@),
                signature_views(final(self).recent_sections@),
                seed,
                final(self).random@,
                0,
                LANE_COUNT - 3,
                TILE_COLUMNS / 2,
                0,
                final(self).next_section_id as int,
            ),
    {
        *self = Self::with_seed(seed);
    }

    /// Generates a forest section: up to `SECTION_ATTEMPTS` candidates of
    /// freshly chosen kinds, keeping the first one that can be crossed and is
    /// not too similar to a recent section; otherwise the first crossable
    /// candidate, or else a fresh clearing. The section is then accepted.
    #[verifier::rlimit(40)]
    pub fn generate_forest_section(&mut self) -> (section: Section)
        requires
            old(self).next_section_id < usize::MAX,
        ensures
            generated_section(section, old(self).next_section_id),
            section.signature.kind != SectionKind::River,
            section_crossing(lane_views(section.lanes@)) || section.signature.kind == SectionKind::Forest(
                ForestSectionKind::Clearing,
            ),
            accepted(*old(self), *final(self), section),
            forest_section_searched(
                section_view(section),
                old(self).random@,
                final(self).random@,
                old(self).score,
                last_forest_kind(signature_views(old(self).recent_sections@)),
                signature_views(old(self).recent_sections@),
                old(self).next_section_id,
            ),
    {
        let ghost recent = signature_views(self.recent_sections@);
        let ghost previous = last_forest_kind(recent);
        let ghost score = self.score;
        let ghost mut candidates: Seq<(Seq<LaneView>, (SectionKind, Seq<u8>))> = Seq::empty();
        let ghost mut states: Seq<u64> = seq![self.random@];
        let section_id = self.next_section_id;
        let mut fallback: Option<Section> = None;
        let mut attempt: usize = 0;
        while attempt < SECTION_ATTEMPTS
            invariant
                section_id == old(self).next_section_id,
                section_id < usize::MAX,
                self.next_section_id == old(self).next_section_id,
                self.recent_sections == old(self).recent_sections,
                board_unchanged(*old(self), *self),
                self.pending_lanes == old(self).pending_lanes,
                fallback matches Some(f) ==> (generated_section(f, section_id) && f.signature.kind
                    != SectionKind::River && section_crossing(lane_views(f.lanes@))),
                recent == signature_views(self.recent_sections@),
                previous == last_forest_kind(recent),
                score == self.score,
                attempt <= SECTION_ATTEMPTS,
                candidates.len() == attempt,
                forest_candidates(candidates, states, score, previous, section_id),
                states[0] == old(self).random@,
                states[attempt as int] == self.random@,
                forall|j: int| 0 <= j < attempt ==> !keeps_at_once(#[trigger] candidates[j], recent),
                fallback is Some <==> exists|f: int| first_crossing(candidates, f),
                fallback matches Some(fb) ==> forall|f: int| first_crossing(candidates, f) ==> section_view(fb) == candidates[f],
            decreases SECTION_ATTEMPTS - attempt,
        {
            let kind = self.choose_forest_kind();
            let section = self.generate_section_candidate(section_id, kind);
            let crossing = section_has_crossing(section.lanes.as_slice());
            let ghost view = section_view(section);
            let ghost before = candidates;
            proof {
                candidates = candidates.push(view);
                states = states.push(self.random@);
                assert(forest_candidate(view, states[attempt as int], states[attempt + 1], score, previous, section_id));
                assert forall|j: int| 0 <= j < candidates.len() implies forest_candidate(
                    #[trigger] candidates[j],
                    states[j],
                    states[j + 1],
                    score,
                    previous,
                    section_id,
                ) by {
                    if j < attempt {
                        assert(candidates[j] == before[j]);
                    }
                }
                assert forall|f: int| first_crossing(candidates, f) && f < attempt implies first_crossing(before, f) by {
                    assert forall|j: int| 0 <= j < f implies !section_crossing(#[trigger] before[j].0) by {
                        assert(candidates[j] == before[j]);
                    }
                }
                assert forall|f: int| first_crossing(before, f) implies first_crossing(candidates, f) by {
                    assert(candidates[f] == before[f]);
                    assert forall|j: int| 0 <= j < f implies !section_crossing(#[trigger] candidates[j].0) by {
                        assert(candidates[j] == before[j]);
                    }
                }
            }
            if fallback.is_none() && crossing {
                fallback = Some(section.clone());
                proof {
                    assert forall|j: int| 0 <= j < attempt implies !section_crossing(#[trigger] candidates[j].0) by {
                        assert(candidates[j] == before[j]);
                        if section_crossing(before[j].0) {
                            let g = choose|g: int| 0 <= g <= j && section_crossing(before[g].0) && forall|i: int|
                                0 <= i < g ==> !section_crossing(#[trigger] before[i].0);
                            assert(first_crossing(before, g));
                        }
                    }
                    assert(first_crossing(candidates, attempt as int));
                    assert forall|f: int| first_crossing(candidates, f) implies f == attempt by {
                        if f < attempt {
                            assert(first_crossing(before, f));
                        }
                    }
                }
            }
            if crossing {
                let similar = self.section_is_too_similar(&section.signature);
                proof {
                    if similar {
                        let i = choose|i: int|
                            0 <= i < self.recent_sections@.len() && too_similar(
                                #[trigger] self.recent_sections@[i]@,
                                section.signature@,
                            );
                        assert(recent[i] == self.recent_sections@[i]@);
                    } else {
                        assert forall|i: int| 0 <= i < recent.len() implies !too_similar(#[trigger] recent[i], view.1) by {
                            assert(recent[i] == self.recent_sections@[i]@);
                        }
                    }
                    assert(similar == like_recent(recent, view.1));
                }
                if !similar {
                    self.accept_section(&section.signature);
                    proof {
                        reveal(forest_section_searched);
                        assert(search_ends(candidates, states, recent, view, self.random@, true));
                        assert(forest_candidates(candidates, states, score, previous, section_id));
                    }
                    return section;
                }
            }
            proof {
                assert(!keeps_at_once(view, recent));
            }
            attempt = attempt + 1;
        }
        let ghost last_state = self.random@;
        let section = match fallback {
            Some(f) => f,
            None => self.generate_section_candidate(section_id, ForestSectionKind::Clearing),
        };
        self.accept_section(&section.signature);
        proof {
            reveal(forest_section_searched);
            let result = section_view(section);
            assert(!keeps_at_once(candidates[SECTION_ATTEMPTS - 1], recent));
            assert(search_ends(
                candidates,
                states,
                recent,
                result,
                self.random@,
                result.1.0 == SectionKind::Forest(ForestSectionKind::Clearing) && masks_match(result.0, result.1.1)
                    && forest_section(result.0, section_id, ForestSectionKind::Clearing) && forest_section_drawn(
                    result.0,
                    states[candidates.len() as int],
                    self.random@,
                    ForestSectionKind::Clearing,
                    section_id,
                ),
            ));
        }
        section
    }

    /// Generates a river section: up to `SECTION_ATTEMPTS` candidates,
    /// keeping the first one that can be crossed and is not too similar to a
    /// recent section; otherwise the first crossable candidate, or else a
    /// fresh one. The section is then accepted.
    #[verifier::rlimit(40)]
    pub fn generate_river_section(&mut self) -> (section: Section)
        requires
            old(self).next_section_id < usize::MAX,
        ensures
            generated_section(section, old(self).next_section_id),
            section.signature.kind == SectionKind::River,
            accepted(*old(self), *final(self), section),
            river_section_searched(
                section_view(section),
                old(self).random@,
                final(self).random@,
                signature_views(old(self).recent_sections@),
                old(self).next_section_id,
            ),
    {
        let ghost recent = signature_views(self.recent_sections@);
        let ghost mut candidates: Seq<(Seq<LaneView>, (SectionKind, Seq<u8>))> = Seq::empty();
        let ghost mut states: Seq<u64> = seq![self.random@];
        let section_id = self.next_section_id;
        let mut fallback: Option<Section> = None;
        let mut attempt: usize = 0;
        while attempt < SECTION_ATTEMPTS
            invariant
                section_id == old(self).next_section_id,
                section_id < usize::MAX,
                self.next_section_id == old(self).next_section_id,
                self.recent_sections == old(self).recent_sections,
                board_unchanged(*old(self), *self),
                self.pending_lanes == old(self).pending_lanes,
                fallback matches Some(f) ==> (generated_section(f, section_id) && f.signature.kind
                    == SectionKind::River),
                recent == signature_views(self.recent_sections@),
                attempt <= SECTION_ATTEMPTS,
                candidates.len() == attempt,
                river_candidates(candidates, states, section_id),
                states[0] == old(self).random@,
                states[attempt as int] == self.random@,
                forall|j: int| 0 <= j < attempt ==> !keeps_at_once(#[trigger] candidates[j], recent),
                fallback is Some <==> exists|f: int| first_crossing(candidates, f),
                fallback matches Some(fb) ==> forall|f: int| first_crossing(candidates, f) ==> section_view(fb) == candidates[f],
            decreases SECTION_ATTEMPTS - attempt,
        {
            let section = self.generate_river_section_candidate(section_id);
            let crossing = section_has_crossing(section.lanes.as_slice());
            let ghost view = section_view(section);
            let ghost before = candidates;
            proof {
                candidates = candidates.push(view);
                states = states.push(self.random@);
                assert(river_candidate(view, states[attempt as int], states[attempt + 1], section_id));
                assert forall|j: int| 0 <= j < candidates.len() implies river_candidate(
                    #[trigger] candidates[j],
                    states[j],
                    states[j + 1],
                    section_id,
                ) by {
                    if j < attempt {
                        assert(candidates[j] == before[j]);
                    }
                }
                assert forall|f: int| first_crossing(candidates, f) && f < attempt implies first_crossing(before, f) by {
                    assert forall|j: int| 0 <= j < f implies !section_crossing(#[trigger] before[j].0) by {
                        assert(candidates[j] == before[j]);
                    }
                }
                assert forall|f: int| first_crossing(before, f) implies first_crossing(candidates, f) by {
                    assert(candidates[f] == before[f]);
                    assert forall|j: int| 0 <= j < f implies !section_crossing(#[trigger] candidates[j].0) by {
                        assert(candidates[j] == before[j]);
                    }
                }
            }
            if fallback.is_none() && crossing {
                fallback = Some(section.clone());
                proof {
                    assert forall|j: int| 0 <= j < attempt implies !section_crossing(#[trigger] candidates[j].0) by {
                        assert(candidates[j] == before[j]);
                        if section_crossing(before[j].0) {
                            let g = choose|g: int| 0 <= g <= j && section_crossing(before[g].0) && forall|i: int|
                                0 <= i < g ==> !section_crossing(#[trigger] before[i].0);
                            assert(first_crossing(before, g));
                        }
                    }
                    assert(first_crossing(candidates, attempt as int));
                    assert forall|f: int| first_crossing(candidates, f) implies f == attempt by {
                        if f < attempt {
                            assert(first_crossing(before, f));
                        }
                    }
                }
            }
            if crossing {
                let similar = self.section_is_too_similar(&section.signature);
                proof {
                    if similar {
                        let i = choose|i: int|
                            0 <= i < self.recent_sections@.len() && too_similar(
                                #[trigger] self.recent_sections@[i]@,
                                section.signature@,
                            );
                        assert(recent[i] == self.recent_sections@[i]@);
                    } else {
                        assert forall|i: int| 0 <= i < recent.len() implies !too_similar(#[trigger] recent[i], view.1) by {
                            assert(recent[i] == self.recent_sections@[i]@);
                        }
                    }
                    assert(similar == like_recent(recent, view.1));
                }
                if !similar {
                    self.accept_section(&section.signature);
                    proof {
                        reveal(river_section_searched);
                        assert(search_ends(candidates, states, recent, view, self.random@, true));
                        assert(river_candidates(candidates, states, section_id));
                    }
                    return section;
                }
            }
            proof {
                assert(!keeps_at_once(view, recent));
            }
            attempt = attempt + 1;
        }
        let section = match fallback {
            Some(f) => f,
            None => self.generate_river_section_candidate(section_id),
        };
        self.accept_section(&section.signature);
        proof {
            reveal(river_section_searched);
            let result = section_view(section);
            assert(!keeps_at_once(candidates[SECTION_ATTEMPTS - 1], recent));
            assert(search_ends(
                candidates,
                states,
                recent,
                result,
                self.random@,
                river_candidate(result, states[candidates.len() as int], self.random@, section_id),
            ));
        }
        section
    }

    /// Generates the next section: a river with the score's chance, unless
    /// the last remembered section was a river; a forest otherwise.
    pub fn generate_next_section(&mut self) -> (section: Section)
        requires
            old(self).next_section_id < usize::MAX,
        ensures
            generated_section(section, old(self).next_section_id),
            last_was_river(signature_views(old(self).recent_sections@)) ==> section.signature.kind
                != SectionKind::River,
            accepted(*old(self), *final(self), section),
            next_section_drawn(
                section_view(section),
                old(self).random@,
                final(self).random@,
                old(self).score,
                signature_views(old(self).recent_sections@),
                old(self).next_section_id,
            ),
    {
        proof {
            reveal(next_section_drawn);
        }
        let n = self.recent_sections.len();
        let previous_was_river = n > 0 && self.recent_sections[n - 1].kind == SectionKind::River;
        proof {
            let views = signature_views(self.recent_sections@);
            if n > 0 {
                assert(views.last() == self.recent_sections@[n - 1]@);
            }
            assert(previous_was_river == last_was_river(views));
        }
        let river_chance: usize = if self.score <= 9 {
            22
        } else if self.score <= 34 {
            28
        } else {
            34
        };
        proof {
            assert(river_chance == river_chance_for(self.score));
        }
        if !previous_was_river && self.random.range(100) < river_chance {
            self.generate_river_section()
        } else {
            self.generate_forest_section()
        }
    }

    /// A lane with no obstacles under a fresh section id.
    pub fn generate_emergency_lane(&mut self) -> (lane: Lane)
        requires
            old(self).next_section_id < usize::MAX,
        ensures
            forest_lane(lane@, old(self).next_section_id, ForestSectionKind::Clearing, 0, None),
            forest_lane_drawn(lane@, old(self).random@, final(self).random@, 0, None),
            final(self).next_section_id == old(self).next_section_id + 1,
            board_unchanged(*old(self), *final(self)),
            final(self).pending_lanes == old(self).pending_lanes,
            final(self).recent_sections == old(self).recent_sections,
    {
        let section_id = self.next_section_id;
        self.next_section_id = self.next_section_id + 1;
        self.generate_forest_lane(section_id, ForestSectionKind::Clearing, 0, None)
    }

    /// A full board of grove lanes with three or four obstacles each
    /// (alternating), none on the player's column, all under one fresh
    /// section id.
    pub fn emergency_forest_window(&mut self) -> (lanes: Vec<Lane>)
        requires
            old(self).next_section_id < usize::MAX,
        ensures
            lanes@.len() == LANE_COUNT,
            forall|i: int|
                0 <= i < LANE_COUNT ==> forest_lane(
                    (#[trigger] lanes@[i])@,
                    old(self).next_section_id,
                    ForestSectionKind::Grove,
                    (3 + i % 2) as nat,
                    Some(old(self).player_column),
                ),
            exists|states: Seq<u64>|
                {
                    &&& states.len() == LANE_COUNT + 1
                    &&& states[0] == old(self).random@
                    &&& states[LANE_COUNT as int] == final(self).random@
                    &&& forall|i: int|
                        0 <= i < LANE_COUNT ==> forest_lane_drawn(
                            (#[trigger] lanes@[i])@,
                            states[i],
                            states[i + 1],
                            (3 + i % 2) as nat,
                            Some(old(self).player_column),
                        )
                },
            final(self).next_section_id == old(self).next_section_id + 1,
            board_unchanged(*old(self), *final(self)),
            final(self).pending_lanes == old(self).pending_lanes,
            final(self).recent_sections == old(self).recent_sections,
    {
        let mut lanes: Vec<Lane> = Vec::new();
        let mut lane_index: usize = 0;
        let ghost mut states: Seq<u64> = seq![self.random@];
        while lane_index < LANE_COUNT
            invariant
                lane_index <= LANE_COUNT,
                lanes@.len() == lane_index,
                states.len() == lane_index + 1,
                states[0] == old(self).random@,
                states[lane_index as int] == self.random@,
                forall|i: int|
                    0 <= i < lane_index ==> forest_lane_drawn(
                        (#[trigger] lanes@[i])@,
                        states[i],
                        states[i + 1],
                        (3 + i % 2) as nat,
                        Some(old(self).player_column),
                    ),
                forall|i: int|
                    0 <= i < lane_index ==> forest_lane(
                        (#[trigger] lanes@[i])@,
                        old(self).next_section_id,
                        ForestSectionKind::Grove,
                        (3 + i % 2) as nat,
                        Some(old(self).player_column),
                    ),
                self.next_section_id == old(self).next_section_id,
                board_unchanged(*old(self), *self),
                self.pending_lanes == old(self).pending_lanes,
                self.recent_sections == old(self).recent_sections,
            decreases LANE_COUNT - lane_index,
        {
            let obstacle_count = 3 + lane_index % 2;
            let lane = self.generate_forest_lane(
                self.next_section_id,
                ForestSectionKind::Grove,
                obstacle_count,
                Some(self.player_column),
            );
            proof {
                states = states.push(self.random@);
            }
            lanes.push(lane);
            lane_index = lane_index + 1;
        }
        self.next_section_id = self.next_section_id + 1;
        proof {
            assert(states[LANE_COUNT as int] == self.random@);
        }
        lanes
    }

    /// Remembers an accepted section and moves on to the next section id;
    /// only the last `RECENT_SECTION_LIMIT` signatures are kept.
    pub fn accept_section(&mut self, signature: &SectionSignature)
        requires
            old(self).next_section_id < usize::MAX,
        ensures
            final(self).next_section_id == old(self).next_section_id + 1,
            signature_views(final(self).recent_sections@) == keep_recent(
                signature_views(old(self).recent_sections@).push(signature@),
            ),
            final(self).recent_sections@.len() <= RECENT_SECTION_LIMIT,
            board_unchanged(*old(self), *final(self)),
            final(self).pending_lanes == old(self).pending_lanes,
            final(self).random == old(self).random,
    {
        self.next_section_id = self.next_section_id + 1;
        let copy = signature.clone();
        self.recent_sections.push_back(copy);
        let ghost full = signature_views(old(self).recent_sections@).push(signature@);
        let ghost mut dropped: int = 0;
        proof {
            assert(signature_views(self.recent_sections@) =~= full);
            assert(full.subrange(0, full.len() as int) =~= full);
        }
        while self.recent_sections.len() > RECENT_SECTION_LIMIT
            invariant
                0 <= dropped <= full.len(),
                self.recent_sections@.len() == full.len() - dropped,
                signature_views(self.recent_sections@) == full.subrange(dropped, full.len() as int),
                dropped > 0 ==> full.len() - dropped >= RECENT_SECTION_LIMIT,
                self.next_section_id == old(self).next_section_id + 1,
                board_unchanged(*old(self), *self),
                self.pending_lanes == old(self).pending_lanes,
                self.random == old(self).random,
            decreases self.recent_sections@.len(),
        {
            let ghost before = self.recent_sections@;
            self.recent_sections.pop_front();
            proof {
                assert(self.recent_sections@ == before.subrange(1, before.len() as int));
                assert forall|k: int| 0 <= k < self.recent_sections@.len() implies signature_views(self.recent_sections@)[k] == full[dropped + 1 + k] by {
                    assert(self.recent_sections@[k] == before[k + 1]);
                    assert(signature_views(before)[k + 1] == full.subrange(dropped, full.len() as int)[k + 1]);
                }
                assert(signature_views(self.recent_sections@) =~= full.subrange(dropped + 1, full.len() as int));
                dropped = dropped + 1;
            }
        }
        proof {
            if dropped == 0 {
                assert(signature_views(self.recent_sections@) =~= full);
            }
            assert(signature_views(self.recent_sections@) =~= keep_recent(full));
        }
    }

    /// Picks the kind of the next forest section: up to twelve rolls against
    /// the score's odds, keeping the first kind that differs from the last
    /// forest section's; otherwise the kind that follows the last one.
    pub fn choose_forest_kind(&mut self) -> (kind: ForestSectionKind)
        ensures
            (final(self).random@, kind) == kind_attempts(
                old(self).random@,
                old(self).score,
                last_forest_kind(signature_views(old(self).recent_sections@)),
                12,
            ),
            Some(kind) != last_forest_kind(signature_views(old(self).recent_sections@)),
            board_unchanged(*old(self), *final(self)),
            final(self).next_section_id == old(self).next_section_id,
            final(self).pending_lanes == old(self).pending_lanes,
            final(self).recent_sections == old(self).recent_sections,
    {
        let previous = last_forest_kind_of(&self.recent_sections);
        proof {
            lemma_kind_attempts_differ(self.random@, self.score, previous, 12);
        }
        let mut tries: usize = 0;
        while tries < 12
            invariant
                tries <= 12,
                previous == last_forest_kind(signature_views(old(self).recent_sections@)),
                kind_attempts(old(self).random@, old(self).score, previous, 12) == kind_attempts(
                    self.random@,
                    self.score,
                    previous,
                    (12 - tries) as nat,
                ),
                board_unchanged(*old(self), *self),
                self.next_section_id == old(self).next_section_id,
                self.pending_lanes == old(self).pending_lanes,
                self.recent_sections == old(self).recent_sections,
            decreases 12 - tries,
        {
            let roll = self.random.range(100);
            let kind = forest_kind_for_roll(self.score, roll);
            let repeated = match previous {
                Some(p) => p == kind,
                None => false,
            };
            if !repeated {
                return kind;
            }
            tries = tries + 1;
        }
        match previous {
            Some(ForestSectionKind::Clearing) => ForestSectionKind::Grove,
            Some(ForestSectionKind::Grove) => ForestSectionKind::Thicket,
            _ => ForestSectionKind::Clearing,
        }
    }

    /// A candidate forest section: a lane count and per-lane obstacle counts
    /// for the kind (a clearing may open one lane completely), shuffled, then
    /// lanes whose layouts differ from the lane before.
    pub fn generate_section_candidate(&mut self, section_id: usize, kind: ForestSectionKind) -> (section: Section)
        ensures
            forest_section(lane_views(section.lanes@), section_id, kind),
            signed_as(section, SectionKind::Forest(kind)),
            forest_section_drawn(lane_views(section.lanes@), old(self).random@, final(self).random@, kind, section_id),
            board_unchanged(*old(self), *final(self)),
            final(self).next_section_id == old(self).next_section_id,
            final(self).pending_lanes == old(self).pending_lanes,
            final(self).recent_sections == old(self).recent_sections,
    {
        draw_forest_section(&mut self.random, section_id, kind)
    }

    /// A candidate river section: two to four river lanes with three or four
    /// platforms, each laid out unlike the lane before.
    pub fn generate_river_section_candidate(&mut self, section_id: usize) -> (section: Section)
        ensures
            river_section(lane_views(section.lanes@), section_id),
            signed_as(section, SectionKind::River),
            river_section_drawn(lane_views(section.lanes@), old(self).random@, final(self).random@, section_id),
            board_unchanged(*old(self), *final(self)),
            final(self).next_section_id == old(self).next_section_id,
            final(self).pending_lanes == old(self).pending_lanes,
            final(self).recent_sections == old(self).recent_sections,
    {
        draw_river_section(&mut self.random, section_id)
    }

    /// Draws obstacle columns for a forest lane: distinct random columns,
    /// skipping `forced_open`, kept in increasing order; then the ground kind
    /// (stone one time in seven).
    pub fn generate_forest_lane(
        &mut self,
        section_id: usize,
        section_kind: ForestSectionKind,
        obstacle_count: usize,
        forced_open: Option<usize>,
    ) -> (lane: Lane)
        requires
            obstacle_count <= (if forced_open matches Some(f) && f < TILE_COLUMNS { 6usize } else { 7usize }),
        ensures
            forest_lane(lane@, section_id, section_kind, obstacle_count as nat, forced_open),
            forest_lane_drawn(lane@, old(self).random@, final(self).random@, obstacle_count as nat, forced_open),
            final(self).lanes == old(self).lanes,
            final(self).player_column == old(self).player_column,
            final(self).player_lane == old(self).player_lane,
            final(self).score == old(self).score,
            final(self).game_over == old(self).game_over,
            final(self).paused == old(self).paused,
            final(self).next_section_id == old(self).next_section_id,
            final(self).pending_lanes == old(self).pending_lanes,
            final(self).recent_sections == old(self).recent_sections,
    {
        draw_forest_lane(&mut self.random, section_id, section_kind, obstacle_count, forced_open)
    }

    /// Draws platform columns for a river lane: a random pair of neighbouring
    /// columns, then distinct random columns until there are
    /// `platform_count`, kept in increasing order.
    pub fn generate_river_lane(&mut self, section_id: usize, platform_count: usize) -> (lane: Lane)
        requires
            platform_count <= TILE_COLUMNS,
        ensures
            river_lane(lane@, section_id, if platform_count < 2 { 2 } else { platform_count as nat }),
            river_lane_drawn(lane@, old(self).random@, final(self).random@, platform_count as nat),
            final(self).lanes == old(self).lanes,
            final(self).player_column == old(self).player_column,
            final(self).player_lane == old(self).player_lane,
            final(self).score == old(self).score,
            final(self).game_over == old(self).game_over,
            final(self).paused == old(self).paused,
            final(self).next_section_id == old(self).next_section_id,
            final(self).pending_lanes == old(self).pending_lanes,
            final(self).recent_sections == old(self).recent_sections,
    {
        draw_river_lane(&mut self.random, section_id, platform_count)
    }

    pub open spec fn well_formed(&self) -> bool {
        game_well_formed(*self)
    }

    /// Whether the game is well formed: seven lanes, the player on the
    /// board, every lane (on the board and in the queue) with its columns on
    /// the board, and at most `RECENT_SECTION_LIMIT` remembered sections.
    pub fn check_well_formed(&self) -> (ok: bool)
        ensures
            ok == self.well_formed(),
    {
        if self.lanes.len() != LANE_COUNT || self.player_lane >= LANE_COUNT || self.player_column
            >= TILE_COLUMNS || self.recent_sections.len() > RECENT_SECTION_LIMIT {
            return false;
        }
        let mut i: usize = 0;
        while i < self.lanes.len()
            invariant
                i <= self.lanes@.len(),
                forall|j: int| 0 <= j < i ==> (#[trigger] lane_views(self.lanes@)[j]).columns_on_board(),
            decreases self.lanes@.len() - i,
        {
            if !self.lanes[i].is_on_board() {
                proof {
                    assert(lane_views(self.lanes@)[i as int] == self.lanes@[i as int]@);
                }
                return false;
            }
            i = i + 1;
        }
        let mut k: usize = 0;
        while k < self.pending_lanes.len()
            invariant
                k <= self.pending_lanes@.len(),
                forall|j: int| 0 <= j < k ==> (#[trigger] queue_views(self.pending_lanes@)[j]).columns_on_board(),
            decreases self.pending_lanes@.len() - k,
        {
            if !self.pending_lanes[k].is_on_board() {
                proof {
                    assert(queue_views(self.pending_lanes@)[k as int] == self.pending_lanes@[k as int]@);
                }
                return false;
            }
            k = k + 1;
        }
        true
    }

    /// The state of the run as the window title shows it: the end of the run
    /// with the key that restarts, the pause with the camera keys, or play.
    pub fn status_text(&self) -> (text: &'static str)
        ensures
            text@ == (if self.game_over {
                "FIN - presiona R"@
            } else if self.paused {
                "PAUSA: A/D rotar, W/S zoom"@
            } else {
                "jugando"@
            }),
    {
        if self.game_over {
            "FIN - presiona R"
        } else if self.paused {
            "PAUSA: A/D rotar, W/S zoom"
        } else {
            "jugando"
        }
    }

    /// Pauses a running game or resumes a paused one.
    pub fn toggle_pause(&mut self)
        ensures
            final(self).paused == !old(self).paused,
            final(self).lanes == old(self).lanes,
            final(self).player_column == old(self).player_column,
            final(self).player_lane == old(self).player_lane,
            final(self).score == old(self).score,
            final(self).game_over == old(self).game_over,
            final(self).next_section_id == old(self).next_section_id,
            final(self).pending_lanes == old(self).pending_lanes,
            final(self).recent_sections == old(self).recent_sections,
            final(self).random == old(self).random,
    {
        self.paused = !self.paused;
    }

    /// Milliseconds the board takes to advance one lane at the current score.
    pub fn cycle_millis(&self) -> (millis: u32)
        ensures
            millis == cycle_millis_for(self.score),
    {
        if self.score <= 9 {
            1250
        } else if self.score <= 19 {
            1050
        } else if self.score <= 34 {
            880
        } else if self.score <= 49 {
            720
        } else {
            580
        }
    }

    /// Moves the player one tile if the game runs, the move stays on the
    /// board and no obstacle stands on the target. Stepping forward onto a
    /// tile that carries the player scores a point; stepping onto a tile that
    /// does not (open water) ends the run.
    pub fn try_move(&mut self, direction: Move) -> (moved: bool)
        requires
            old(self).lanes@.len() == LANE_COUNT,
            old(self).player_lane < LANE_COUNT,
            ({
                let target = move_target(old(self).player_column, old(self).player_lane, direction);
                (!old(self).paused && !old(self).game_over && target is Some && (target->0).1
                    < old(self).player_lane) ==> old(self).score < u32::MAX
            }),
        ensures
            ({
                let target = move_target(old(self).player_column, old(self).player_lane, direction);
                if old(self).paused || old(self).game_over || target is None
                    || old(self).lanes@[(target->0).1 as int]@.blocks((target->0).0 as int) {
                    &&& !moved
                    &&& *final(self) == *old(self)
                } else {
                    let (column, lane) = target->0;
                    let supported = old(self).lanes@[lane as int]@.supports(column as int);
                    &&& moved
                    &&& final(self).player_column == column
                    &&& final(self).player_lane == lane
                    &&& final(self).score == (if lane < old(self).player_lane && supported {
                        old(self).score + 1
                    } else {
                        old(self).score as int
                    })
                    &&& final(self).game_over == !supported
                    &&& final(self).paused == old(self).paused
                    &&& final(self).lanes == old(self).lanes
                    &&& final(self).next_section_id == old(self).next_section_id
                    &&& final(self).pending_lanes == old(self).pending_lanes
                    &&& final(self).recent_sections == old(self).recent_sections
                    &&& final(self).random == old(self).random
                }
            }),
    {
        if self.paused || self.game_over {
            return false;
        }
        let (column, lane) = match direction {
            Move::Left => {
                if self.player_column > 0 {
                    (self.player_column - 1, self.player_lane)
                } else {
                    return false;
                }
            },
            Move::Right => {
                if self.player_column < TILE_COLUMNS - 1 {
                    (self.player_column + 1, self.player_lane)
                } else {
                    return false;
                }
            },
            Move::Forward => {
                if self.player_lane > 0 {
                    (self.player_column, self.player_lane - 1)
                } else {
                    return false;
                }
            },
            Move::Backward => {
                if self.player_lane + 1 < LANE_COUNT {
                    (self.player_column, self.player_lane + 1)
                } else {
                    return false;
                }
            },
        };
        if self.lanes[lane].blocks_movement(column) {
            return false;
        }
        let supported = self.lanes[lane].supports_player(column);
        if lane < self.player_lane && supported {
            self.score = self.score + 1;
        }
        self.player_column = column;
        self.player_lane = lane;
        if !supported {
            self.game_over = true;
        }
        true
    }

    /// Whether a candidate section looks too much like a remembered one:
    /// same kind, same number of lanes, and at most two differing mask bits,
    /// directly or mirrored left-to-right.
    pub fn section_is_too_similar(&self, candidate: &SectionSignature) -> (similar: bool)
        requires
            candidate.lane_masks@.len() <= 0x1000_0000,
        ensures
            similar == exists|i: int|
                0 <= i < self.recent_sections@.len() && too_similar(
                    #[trigger] self.recent_sections@[i]@,
                    candidate@,
                ),
    {
        let n = candidate.lane_masks.len();
        let mut mirrored: Vec<u8> = Vec::new();
        let mut k: usize = 0;
        while k < n
            invariant
                k <= n,
                n == candidate.lane_masks@.len(),
                mirrored@.len() == k,
                forall|j: int| 0 <= j < k ==> #[trigger] mirrored@[j] == mirror_of(candidate.lane_masks@[j]),
            decreases n - k,
        {
            let m = mirror_mask(candidate.lane_masks[k]);
            proof {
                lemma_mirror_unique(candidate.lane_masks@[k as int], m);
            }
            mirrored.push(m);
            k = k + 1;
        }
        proof {
            assert(mirrored@ =~= mirror_row(candidate.lane_masks@));
        }
        let mut i: usize = 0;
        while i < self.recent_sections.len()
            invariant
                i <= self.recent_sections@.len(),
                n == candidate.lane_masks@.len(),
                n <= 0x1000_0000,
                mirrored@ == mirror_row(candidate.lane_masks@),
                forall|j: int| 0 <= j < i ==> !too_similar(#[trigger] self.recent_sections@[j]@, candidate@),
            decreases self.recent_sections@.len() - i,
        {
            let previous = &self.recent_sections[i];
            if previous.kind == candidate.kind && previous.lane_masks.len() == n {
                proof {
                    crate::masks::lemma_mask_difference_bound_len(previous.lane_masks@, candidate.lane_masks@);
                    crate::masks::lemma_mask_difference_bound_len(previous.lane_masks@, mirrored@);
                }
                let direct = mask_difference(previous.lane_masks.as_slice(), candidate.lane_masks.as_slice());
                let flipped = mask_difference(previous.lane_masks.as_slice(), mirrored.as_slice());
                let smallest = if direct < flipped { direct } else { flipped };
                if smallest <= 2 {
                    proof {
                        assert(too_similar(self.recent_sections@[i as int]@, candidate@));
                    }
                    return true;
                }
            }
            i = i + 1;
        }
        false
    }
}

/// How many random draws a lane gets to place its columns before the
/// lowest free columns are taken instead.
pub const PICK_ATTEMPTS: usize = 1000;

/// Every column of the list lies on the board.
pub open spec fn columns_on_board(s: Seq<usize>) -> bool {
    forall|i: int| 0 <= i < s.len() ==> s[i] < TILE_COLUMNS
}

/// A forest lane of the given section with `count` obstacles on distinct
/// columns, listed in increasing order, none of them on `forced_open`.
pub open spec fn forest_lane(
    lane: LaneView,
    section_id: usize,
    kind: ForestSectionKind,
    count: nat,
    forced_open: Option<usize>,
) -> bool {
    &&& lane.environment == Environment::Forest
    &&& lane.section_kind == SectionKind::Forest(kind)
    &&& lane.section_id == section_id
    &&& (lane.kind == LaneKind::Grass || lane.kind == LaneKind::Stone)
    &&& strictly_increasing(lane.obstacles)
    &&& columns_on_board(lane.obstacles)
    &&& lane.obstacles.len() == count
    &&& (forced_open matches Some(f) ==> !lane.obstacles.contains(f))
    &&& lane.platforms.len() == 0
}

/// A river lane of the given section with `count` platforms on distinct
/// columns, listed in increasing order, two of them side by side.
pub open spec fn river_lane(lane: LaneView, section_id: usize, count: nat) -> bool {
    &&& lane.environment == Environment::River
    &&& lane.section_kind == SectionKind::River
    &&& lane.section_id == section_id
    &&& lane.kind == LaneKind::Water
    &&& lane.obstacles.len() == 0
    &&& strictly_increasing(lane.platforms)
    &&& columns_on_board(lane.platforms)
    &&& lane.platforms.len() == count
    &&& exists|c: usize| #[trigger] lane.platforms.contains(c) && lane.platforms.contains((c + 1) as usize)
}

/// The last `RECENT_SECTION_LIMIT` entries (all of them when fewer).
pub open spec fn keep_recent<T>(s: Seq<T>) -> Seq<T> {
    if s.len() > RECENT_SECTION_LIMIT {
        s.subrange(s.len() - RECENT_SECTION_LIMIT, s.len() as int)
    } else {
        s
    }
}

/// Columns kept by up to `tries` draws of a column below `TILE_COLUMNS`
/// from generator state `state`, starting from `kept`: every drawn column
/// other than `forbidden` is kept, and the drawing stops as soon as `count`
/// columns are kept. Gives the generator state after the draws and the kept
/// columns.
pub open spec fn pick_columns(
    state: u64,
    kept: Set<usize>,
    count: nat,
    forbidden: Option<usize>,
    tries: nat,
) -> (u64, Set<usize>)
    decreases tries,
{
    if kept.len() >= count || tries == 0 {
        (state, kept)
    } else {
        let (next, column) = draw(state, TILE_COLUMNS);
        let kept_now = if forbidden == Some(column) {
            kept
        } else {
            kept.insert(column)
        };
        pick_columns(next, kept_now, count, forbidden, (tries - 1) as nat)
    }
}

/// The column an option names, as a set.
pub open spec fn option_set(column: Option<usize>) -> Set<usize> {
    match column {
        Some(c) => set![c],
        None => Set::empty(),
    }
}

/// Apart from the columns of `skip`, `columns` lists the lowest columns:
/// below every listed column outside `skip`, each column outside `skip` is
/// listed too.
pub open spec fn lowest_fill(columns: Seq<usize>, skip: Set<usize>) -> bool {
    forall|a: usize, b: usize|
        #![trigger columns.contains(a), columns.contains(b)]
        columns.contains(a) && !skip.contains(a) && b < a && !skip.contains(b) ==> columns.contains(b)
}

/// The obstacle columns and ground of a forest lane drawn with generator
/// state `start`, which the drawing leaves at `end`: up to `PICK_ATTEMPTS`
/// draws of columns other than `forced_open` until `count` distinct ones are
/// kept (the lowest allowed columns when the draws fall short), then one
/// draw below 7 that makes the ground stone when it is 0.
pub open spec fn forest_lane_drawn(
    lane: LaneView,
    start: u64,
    end: u64,
    count: nat,
    forced_open: Option<usize>,
) -> bool {
    let (state, kept) = pick_columns(start, Set::empty(), count, forced_open, PICK_ATTEMPTS as nat);
    let (after, roll) = draw(state, TILE_COLUMNS);
    &&& (if kept.len() >= count {
        lane.obstacles.to_set() == kept
    } else {
        lowest_fill(lane.obstacles, option_set(forced_open))
    })
    &&& end == after
    &&& lane.kind == (if roll == 0 {
        LaneKind::Stone
    } else {
        LaneKind::Grass
    })
}

/// The platform columns of a river lane drawn with generator state `start`,
/// which the drawing leaves at `end`: a draw below 6 picks the first of two
/// neighbouring platforms, then up to `PICK_ATTEMPTS` draws of columns until
/// `count` distinct ones are kept (the pair and the lowest other columns
/// when the draws fall short).
pub open spec fn river_lane_drawn(lane: LaneView, start: u64, end: u64, count: nat) -> bool {
    let (first, pair_start) = draw(start, (TILE_COLUMNS - 1) as usize);
    let pair = set![pair_start, (pair_start + 1) as usize];
    let (state, kept) = pick_columns(first, pair, count, None, PICK_ATTEMPTS as nat);
    &&& (if kept.len() >= count {
        lane.platforms.to_set() == kept
    } else {
        lowest_fill(lane.platforms, pair) && lane.platforms.contains(pair_start) && lane.platforms.contains(
            (pair_start + 1) as usize,
        )
    })
    &&& end == state
}

/// A strictly increasing list has as many distinct entries as entries.
pub(crate) proof fn lemma_increasing_set_len(columns: Seq<usize>)
    requires
        strictly_increasing(columns),
    ensures
        columns.to_set().len() == columns.len(),
        columns.to_set().finite(),
{
    assert(columns.no_duplicates());
    columns.unique_seq_to_set();
    vstd::seq_lib::seq_to_set_is_finite(columns);
}

/// Adds `column` to a strictly increasing list that lacks it, keeping the
/// order.
fn insert_sorted(columns: &mut Vec<usize>, column: usize)
    requires
        strictly_increasing(old(columns)@),
        !old(columns)@.contains(column),
    ensures
        strictly_increasing(final(columns)@),
        final(columns)@.len() == old(columns)@.len() + 1,
        forall|x: usize| final(columns)@.contains(x) <==> (old(columns)@.contains(x) || x == column),
        columns_on_board(old(columns)@) && column < TILE_COLUMNS ==> columns_on_board(final(columns)@),
{
    let ghost before = columns@;
    let mut i: usize = 0;
    while i < columns.len() && columns[i] < column
        invariant
            i <= columns@.len(),
            columns@ == before,
            forall|j: int| 0 <= j < i ==> columns@[j] < column,
        decreases columns@.len() - i,
    {
        i = i + 1;
    }
    proof {
        assert forall|j: int| i <= j < before.len() implies before[j] > column by {
            assert(before[j] != column);
            if before[j] < column {
                assert(before[i as int] <= before[j]);
                assert(before[i as int] < column);
            }
        }
    }
    columns.insert(i, column);
    proof {
        let after = columns@;
        assert(after == before.insert(i as int, column));
        assert forall|a: int, b: int| 0 <= a < b < after.len() implies after[a] < after[b] by {
            if b < i {
            } else if b == i {
            } else if a < i {
                assert(after[b] == before[b - 1]);
            } else if a == i {
                assert(after[b] == before[b - 1]);
            } else {
                assert(after[a] == before[a - 1]);
                assert(after[b] == before[b - 1]);
            }
        }
        assert forall|a: int| 0 <= a < after.len() && columns_on_board(before) && column < TILE_COLUMNS implies after[a] < TILE_COLUMNS by {
            if a < i {
                assert(after[a] == before[a]);
            } else if a > i {
                assert(after[a] == before[a - 1]);
            }
        }
        assert forall|x: usize| after.contains(x) <==> (before.contains(x) || x == column) by {
            if after.contains(x) {
                let w = choose|w: int| 0 <= w < after.len() && after[w] == x;
                if w < i {
                    assert(before[w] == x);
                } else if w > i {
                    assert(before[w - 1] == x);
                }
            }
            if before.contains(x) {
                let w = choose|w: int| 0 <= w < before.len() && before[w] == x;
                if w < i {
                    assert(after[w] == x);
                } else {
                    assert(after[w + 1] == x);
                }
            }
            if x == column {
                assert(after[i as int] == x);
            }
        }
    }
}

/// The lowest `count` columns other than `forced_open`, in increasing order.
fn lowest_columns(count: usize, forced_open: Option<usize>) -> (columns: Vec<usize>)
    requires
        count <= (if forced_open matches Some(f) && f < TILE_COLUMNS { 6usize } else { 7usize }),
    ensures
        strictly_increasing(columns@),
        columns_on_board(columns@),
        columns@.len() == count,
        forced_open matches Some(f) ==> !columns@.contains(f),
        lowest_fill(columns@, option_set(forced_open)),
{
    let mut columns: Vec<usize> = Vec::new();
    let mut c: usize = 0;
    while c < TILE_COLUMNS
        invariant
            c <= TILE_COLUMNS,
            count <= (if forced_open matches Some(f) && f < TILE_COLUMNS { 6usize } else { 7usize }),
            strictly_increasing(columns@),
            forall|i: int| 0 <= i < columns@.len() ==> columns@[i] < c,
            forced_open matches Some(f) ==> !columns@.contains(f),
            lowest_fill(columns@, option_set(forced_open)),
            columns@.len() < count ==> forall|b: usize|
                b < c && !option_set(forced_open).contains(b) ==> #[trigger] columns@.contains(b),
            ({
                let skipped: int = if forced_open matches Some(f) && f < c { 1 } else { 0 };
                columns@.len() == (if count < c - skipped { count as int } else { c - skipped })
            }),
        decreases TILE_COLUMNS - c,
    {
        let allowed = match forced_open {
            Some(f) => f != c,
            None => true,
        };
        proof {
            assert(allowed == !option_set(forced_open).contains(c));
        }
        if allowed && columns.len() < count {
            let ghost before = columns@;
            columns.push(c);
            proof {
                assert forall|x: usize| columns@.contains(x) implies (before.contains(x) || x == c) by {
                    let w = choose|w: int| 0 <= w < columns@.len() && columns@[w] == x;
                    if w < before.len() {
                        assert(before[w] == x);
                    }
                }
                assert forall|x: usize| before.contains(x) implies columns@.contains(x) by {
                    let w = choose|w: int| 0 <= w < before.len() && before[w] == x;
                    assert(columns@[w] == x);
                }
                assert(columns@[before.len() as int] == c);
                assert(columns@.contains(c));
                assert forall|a: usize, b: usize|
                    #![trigger columns@.contains(a), columns@.contains(b)]
                    columns@.contains(a) && !option_set(forced_open).contains(a) && b < a
                        && !option_set(forced_open).contains(b) implies columns@.contains(b) by {
                    if a == c {
                        assert(before.contains(b));
                    } else {
                        assert(before.contains(a));
                        assert(before.contains(b));
                    }
                }
                if columns@.len() < count {
                    assert forall|b: usize| b < c + 1 && !option_set(forced_open).contains(b) implies #[trigger] columns@.contains(b) by {
                        if b < c {
                            assert(before.contains(b));
                        }
                    }
                }
            }
        }
        c = c + 1;
    }
    columns
}

/// Draws obstacle columns for a forest lane: distinct random columns,
/// skipping `forced_open`, kept in increasing order; then the ground kind
/// (stone one time in seven).
fn draw_forest_lane(
    random: &mut Random,
    section_id: usize,
    section_kind: ForestSectionKind,
    obstacle_count: usize,
    forced_open: Option<usize>,
) -> (lane: Lane)
    requires
        obstacle_count <= (if forced_open matches Some(f) && f < TILE_COLUMNS { 6usize } else { 7usize }),
    ensures
        forest_lane(lane@, section_id, section_kind, obstacle_count as nat, forced_open),
        forest_lane_drawn(lane@, old(random)@, final(random)@, obstacle_count as nat, forced_open),
{
    let ghost picked = pick_columns(old(random)@, Set::empty(), obstacle_count as nat, forced_open, PICK_ATTEMPTS as nat);
    let mut columns: Vec<usize> = Vec::new();
    let mut tries: usize = 0;
    proof {
        assert(columns@.to_set() =~= Set::<usize>::empty());
    }
    while columns.len() < obstacle_count && tries < PICK_ATTEMPTS
        invariant
            strictly_increasing(columns@),
            columns_on_board(columns@),
            columns@.len() <= obstacle_count,
            forced_open matches Some(f) ==> !columns@.contains(f),
            tries <= PICK_ATTEMPTS,
            picked == pick_columns(old(random)@, Set::empty(), obstacle_count as nat, forced_open, PICK_ATTEMPTS as nat),
            pick_columns(random@, columns@.to_set(), obstacle_count as nat, forced_open, (PICK_ATTEMPTS - tries) as nat)
                == picked,
        decreases PICK_ATTEMPTS - tries,
    {
        let ghost set_before = columns@.to_set();
        let ghost state_before = random@;
        proof {
            lemma_increasing_set_len(columns@);
        }
        let column = random.range(TILE_COLUMNS);
        let allowed = match forced_open {
            Some(f) => f != column,
            None => true,
        };
        if allowed && !contains_column(&columns, column) {
            insert_sorted(&mut columns, column);
            proof {
                assert(columns@.to_set() =~= set_before.insert(column));
            }
        } else {
            proof {
                if allowed {
                    assert(set_before.insert(column) =~= set_before);
                }
            }
        }
        proof {
            let rest = (PICK_ATTEMPTS - tries) as nat;
            assert(rest > 0);
            assert(set_before.len() < obstacle_count);
            assert(pick_columns(state_before, set_before, obstacle_count as nat, forced_open, rest) == pick_columns(
                random@,
                columns@.to_set(),
                obstacle_count as nat,
                forced_open,
                (rest - 1) as nat,
            ));
        }
        tries = tries + 1;
    }
    let ghost state_after_pick = random@;
    proof {
        lemma_increasing_set_len(columns@);
        assert(picked == (state_after_pick, columns@.to_set()));
    }
    if columns.len() < obstacle_count {
        columns = lowest_columns(obstacle_count, forced_open);
    }
    let kind = if random.range(7) == 0 {
        LaneKind::Stone
    } else {
        LaneKind::Grass
    };
    Lane {
        environment: Environment::Forest,
        section_kind: SectionKind::Forest(section_kind),
        section_id,
        kind,
        obstacle_columns: columns,
        platform_columns: Vec::new(),
    }
}

/// The two neighbouring columns from `pair_start` together with the lowest
/// other columns, `count` in all, in increasing order.
fn pair_and_lowest(pair_start: usize, count: usize) -> (columns: Vec<usize>)
    requires
        pair_start < TILE_COLUMNS - 1,
        2 <= count <= TILE_COLUMNS,
    ensures
        strictly_increasing(columns@),
        columns_on_board(columns@),
        columns@.len() == count,
        columns@.contains(pair_start),
        columns@.contains((pair_start + 1) as usize),
        lowest_fill(columns@, set![pair_start, (pair_start + 1) as usize]),
{
    let ghost pair = set![pair_start, (pair_start + 1) as usize];
    let mut columns: Vec<usize> = Vec::new();
    columns.push(pair_start);
    columns.push(pair_start + 1);
    proof {
        assert(columns@[0] == pair_start);
        assert(columns@[1] == pair_start + 1);
        assert(columns@.contains(pair_start));
        assert(columns@.contains((pair_start + 1) as usize));
        assert forall|x: usize| columns@.contains(x) implies (x == pair_start || x == pair_start + 1) by {
            let w = choose|w: int| 0 <= w < columns@.len() && columns@[w] == x;
        }
    }
    let mut c: usize = 0;
    while c < TILE_COLUMNS
        invariant
            c <= TILE_COLUMNS,
            pair_start < TILE_COLUMNS - 1,
            2 <= count <= TILE_COLUMNS,
            strictly_increasing(columns@),
            columns_on_board(columns@),
            columns@.contains(pair_start),
            columns@.contains((pair_start + 1) as usize),
            forall|x: usize| columns@.contains(x) ==> (x < c || x == pair_start || x == pair_start + 1),
            pair == set![pair_start, (pair_start + 1) as usize],
            lowest_fill(columns@, pair),
            columns@.len() < count ==> forall|b: usize| b < c && !pair.contains(b) ==> #[trigger] columns@.contains(b),
            ({
                let taken: int = (if pair_start < c { 1int } else { 0int }) + (if pair_start + 1 < c {
                    1int
                } else {
                    0int
                });
                columns@.len() == (if count < 2 + c - taken {
                    count as int
                } else {
                    2 + c - taken
                })
            }),
        decreases TILE_COLUMNS - c,
    {
        let ghost before = columns@;
        if columns.len() < count && !contains_column(&columns, c) {
            insert_sorted(&mut columns, c);
            proof {
                assert(!pair.contains(c));
                assert forall|a: usize, b: usize|
                    #![trigger columns@.contains(a), columns@.contains(b)]
                    columns@.contains(a) && !pair.contains(a) && b < a && !pair.contains(b) implies columns@.contains(b) by {
                    if a == c {
                        assert(before.contains(b));
                    } else {
                        assert(before.contains(a));
                        assert(before.contains(b));
                    }
                }
                if columns@.len() < count {
                    assert forall|b: usize| b < c + 1 && !pair.contains(b) implies #[trigger] columns@.contains(b) by {
                        if b < c {
                            assert(before.contains(b));
                        }
                    }
                }
            }
        } else {
            proof {
                if columns@.len() < count {
                    assert forall|b: usize| b < c + 1 && !pair.contains(b) implies #[trigger] columns@.contains(b) by {
                        if b < c {
                            assert(before.contains(b));
                        }
                    }
                }
            }
        }
        c = c + 1;
    }
    columns
}

/// Draws platform columns for a river lane: a random pair of neighbouring
/// columns, then distinct random columns until there are
/// `platform_count`, kept in increasing order.
fn draw_river_lane(random: &mut Random, section_id: usize, platform_count: usize) -> (lane: Lane)
    requires
        platform_count <= TILE_COLUMNS,
    ensures
        river_lane(lane@, section_id, if platform_count < 2 { 2 } else { platform_count as nat }),
        river_lane_drawn(lane@, old(random)@, final(random)@, platform_count as nat),
{
    let pair_start = random.range(TILE_COLUMNS - 1);
    let ghost pair = set![pair_start, (pair_start + 1) as usize];
    let ghost picked = pick_columns(random@, pair, platform_count as nat, None, PICK_ATTEMPTS as nat);
    let mut columns: Vec<usize> = Vec::new();
    columns.push(pair_start);
    columns.push(pair_start + 1);
    proof {
        assert(columns@[0] == pair_start);
        assert(columns@[1] == pair_start + 1);
        assert(columns@.contains(pair_start));
        assert(columns@.contains((pair_start + 1) as usize));
        assert(columns@.to_set() =~= pair);
    }
    let mut tries: usize = 0;
    while columns.len() < platform_count && tries < PICK_ATTEMPTS
        invariant
            pair_start < TILE_COLUMNS - 1,
            platform_count <= TILE_COLUMNS,
            strictly_increasing(columns@),
            columns_on_board(columns@),
            2 <= columns@.len(),
            columns@.len() <= (if platform_count < 2 { 2 } else { platform_count as nat }),
            columns@.contains(pair_start),
            columns@.contains((pair_start + 1) as usize),
            tries <= PICK_ATTEMPTS,
            pick_columns(random@, columns@.to_set(), platform_count as nat, None, (PICK_ATTEMPTS - tries) as nat)
                == picked,
        decreases PICK_ATTEMPTS - tries,
    {
        let ghost set_before = columns@.to_set();
        let ghost state_before = random@;
        proof {
            lemma_increasing_set_len(columns@);
        }
        let column = random.range(TILE_COLUMNS);
        if !contains_column(&columns, column) {
            insert_sorted(&mut columns, column);
            proof {
                assert(columns@.to_set() =~= set_before.insert(column));
            }
        } else {
            proof {
                assert(set_before.insert(column) =~= set_before);
            }
        }
        proof {
            let rest = (PICK_ATTEMPTS - tries) as nat;
            assert(pick_columns(state_before, set_before, platform_count as nat, None, rest) == pick_columns(
                random@,
                columns@.to_set(),
                platform_count as nat,
                None,
                (rest - 1) as nat,
            ));
        }
        tries = tries + 1;
    }
    proof {
        lemma_increasing_set_len(columns@);
        assert(picked == (random@, columns@.to_set()));
    }
    if columns.len() < platform_count {
        columns = pair_and_lowest(pair_start, platform_count);
    }
    let lane = Lane {
        environment: Environment::River,
        section_kind: SectionKind::River,
        section_id,
        kind: LaneKind::Water,
        obstacle_columns: Vec::new(),
        platform_columns: columns,
    };
    proof {
        assert(lane@.platforms.contains(pair_start) && lane@.platforms.contains((pair_start + 1) as usize));
    }
    lane
}

/// Obstacle counts a forest lane of the given kind may have.
pub open spec fn allowed_obstacle_count(kind: ForestSectionKind, count: nat) -> bool {
    match kind {
        ForestSectionKind::Clearing => count == 0 || count == 3 || count == 4,
        ForestSectionKind::Grove => count == 3 || count == 4,
        ForestSectionKind::Thicket => count == 4,
    }
}

/// Lane counts a forest section of the given kind may have.
pub open spec fn allowed_lane_count(kind: ForestSectionKind, count: nat) -> bool {
    match kind {
        ForestSectionKind::Grove => 2 <= count <= 4,
        _ => 2 <= count <= 3,
    }
}

/// The obstacle count of each lane.
pub open spec fn obstacle_counts(lanes: Seq<LaneView>) -> Seq<nat> {
    lanes.map_values(|lane: LaneView| lane.obstacles.len())
}

/// A forest section of the given kind and id: two to four forest lanes with
/// the obstacle counts the kind allows, at most one of them (in a clearing)
/// without obstacles.
pub open spec fn forest_section(lanes: Seq<LaneView>, section_id: usize, kind: ForestSectionKind) -> bool {
    &&& allowed_lane_count(kind, lanes.len())
    &&& forall|i: int|
        0 <= i < lanes.len() ==> forest_lane(
            #[trigger] lanes[i],
            section_id,
            kind,
            lanes[i].obstacles.len(),
            None,
        ) && allowed_obstacle_count(kind, lanes[i].obstacles.len())
    &&& obstacle_counts(lanes).to_multiset().count(0) <= 1
}

/// A river section of the given id: two to four river lanes with three or
/// four platforms each.
pub open spec fn river_section(lanes: Seq<LaneView>, section_id: usize) -> bool {
    &&& 2 <= lanes.len() <= 4
    &&& forall|i: int|
        0 <= i < lanes.len() ==> river_lane(#[trigger] lanes[i], section_id, lanes[i].platforms.len())
            && 3 <= lanes[i].platforms.len() <= 4
}

/// The signature describes the section: its kind and its lanes' obstacle masks.
pub open spec fn signed_as(section: Section, kind: SectionKind) -> bool {
    &&& section.signature.kind == kind
    &&& masks_match(lane_views(section.lanes@), section.signature.lane_masks@)
}

/// `lane` repeats the layout of `previous`: the same obstacle columns in a
/// forest, the same platform columns on a river.
pub open spec fn repeats_layout(previous: Option<LaneView>, lane: LaneView) -> bool {
    match previous {
        Some(p) => p.layout_columns().to_set() == lane.layout_columns().to_set(),
        None => false,
    }
}

/// The view of the lane an optional reference points to.
pub open spec fn option_view(lane: Option<&Lane>) -> Option<LaneView> {
    match lane {
        Some(l) => Some(l@),
        None => None,
    }
}

/// The draws `tries`, from the states `states`, of a search for a lane that
/// does not repeat `previous`: every draw but the last repeats it, the last
/// does not unless all 24 draws were made, and `lane` is the last.
pub open spec fn unlike_search(
    lane: LaneView,
    previous: Option<LaneView>,
    tries: Seq<LaneView>,
    states: Seq<u64>,
) -> bool {
    &&& 1 <= tries.len() <= 24
    &&& states.len() == tries.len() + 1
    &&& forall|j: int| 0 <= j < tries.len() - 1 ==> repeats_layout(previous, #[trigger] tries[j])
    &&& (tries.len() == 24 || !repeats_layout(previous, tries.last()))
    &&& lane == tries.last()
}

/// `lane` is the forest lane of section `section_id` and kind `kind` kept by
/// up to 24 draws of a lane with `count` obstacles from generator state
/// `start`, drawing again while the drawn lane repeats the layout of
/// `previous`; the draws leave the state at `end`.
#[verifier::opaque]
pub open spec fn forest_lane_unlike_drawn(
    lane: LaneView,
    previous: Option<LaneView>,
    start: u64,
    end: u64,
    count: nat,
    section_id: usize,
    kind: ForestSectionKind,
) -> bool {
    exists|tries: Seq<LaneView>, states: Seq<u64>|
        #[trigger] unlike_search(lane, previous, tries, states) && states[0] == start && states[tries.len() as int]
            == end && forall|j: int|
            0 <= j < tries.len() ==> forest_lane_drawn(#[trigger] tries[j], states[j], states[j + 1], count, None)
                && forest_lane(tries[j], section_id, kind, count, None)
}

/// `lane` is the river lane of section `section_id` kept by up to 24 draws
/// of a lane with `count` platforms from generator state `start`, drawing
/// again while the drawn lane repeats the layout of `previous`; the draws
/// leave the state at `end`.
#[verifier::opaque]
pub open spec fn river_lane_unlike_drawn(
    lane: LaneView,
    previous: Option<LaneView>,
    start: u64,
    end: u64,
    count: nat,
    section_id: usize,
) -> bool {
    exists|tries: Seq<LaneView>, states: Seq<u64>|
        #[trigger] unlike_search(lane, previous, tries, states) && states[0] == start && states[tries.len() as int]
            == end && forall|j: int|
            0 <= j < tries.len() ==> river_lane_drawn(#[trigger] tries[j], states[j], states[j + 1], count)
                && river_lane(tries[j], section_id, count)
}

/// Equal layout masks mean equal layout columns, for lanes on the board.
proof fn lemma_layout_masks_equal(p: LaneView, lane: LaneView, pm: u8, lm: u8)
    requires
        p.columns_on_board(),
        lane.columns_on_board(),
        forall|c: int| 0 <= c < 8 ==> (has_bit(pm, c) <==> p.layout_columns().contains(c as usize)),
        forall|c: int| 0 <= c < 8 ==> (has_bit(lm, c) <==> lane.layout_columns().contains(c as usize)),
    ensures
        (pm == lm) <==> repeats_layout(Some(p), lane),
{
    let a = p.layout_columns();
    let b = lane.layout_columns();
    assert(forall|i: int| 0 <= i < a.len() ==> a[i] < TILE_COLUMNS);
    assert(forall|i: int| 0 <= i < b.len() ==> b[i] < TILE_COLUMNS);
    if pm == lm {
        assert forall|x: usize| a.to_set().contains(x) <==> b.to_set().contains(x) by {
            if a.contains(x) {
                let w = choose|w: int| 0 <= w < a.len() && a[w] == x;
                assert(x < TILE_COLUMNS);
                assert(has_bit(pm, x as int));
            }
            if b.contains(x) {
                let w = choose|w: int| 0 <= w < b.len() && b[w] == x;
                assert(x < TILE_COLUMNS);
                assert(has_bit(lm, x as int));
            }
        }
        assert(a.to_set() =~= b.to_set());
    }
    if repeats_layout(Some(p), lane) {
        assert forall|c: int| 0 <= c < 8 implies (has_bit(pm, c) <==> has_bit(lm, c)) by {
            assert(a.to_set().contains(c as usize) == b.to_set().contains(c as usize));
        }
        lemma_bytes_equal_by_bits(pm, lm);
    }
}

/// The lane that the player meets first is whichever `find` would keep:
/// redraws a lane while its layout repeats the previous lane's, at most 24
/// draws in all.
fn draw_forest_lane_unlike(
    random: &mut Random,
    previous: Option<&Lane>,
    section_id: usize,
    kind: ForestSectionKind,
    count: usize,
) -> (lane: Lane)
    requires
        count <= 4,
        previous matches Some(p) ==> p@.columns_on_board(),
    ensures
        forest_lane(lane@, section_id, kind, count as nat, None),
        forest_lane_unlike_drawn(lane@, option_view(previous), old(random)@, final(random)@, count as nat, section_id, kind),
{
    let ghost start = random@;
    let ghost prev = option_view(previous);
    let mut lane = draw_forest_lane(random, section_id, kind, count, None);
    let ghost mut tries: Seq<LaneView> = seq![lane@];
    let ghost mut states: Seq<u64> = seq![start, random@];
    let mut attempt: usize = 1;
    let ghost mut stopped = false;
    while attempt < 24
        invariant
            count <= 4,
            previous matches Some(p) ==> p@.columns_on_board(),
            prev == option_view(previous),
            forest_lane(lane@, section_id, kind, count as nat, None),
            1 <= attempt <= 24,
            tries.len() == attempt,
            states.len() == attempt + 1,
            states[0] == start,
            states[attempt as int] == random@,
            lane@ == tries.last(),
            forall|j: int| 0 <= j < tries.len() - 1 ==> repeats_layout(prev, #[trigger] tries[j]),
            forall|j: int|
                0 <= j < tries.len() ==> forest_lane_drawn(#[trigger] tries[j], states[j], states[j + 1], count as nat, None)
                    && forest_lane(tries[j], section_id, kind, count as nat, None),
            stopped ==> !repeats_layout(prev, lane@),
        ensures
            forest_lane(lane@, section_id, kind, count as nat, None),
            1 <= attempt <= 24,
            tries.len() == attempt,
            states.len() == attempt + 1,
            states[0] == start,
            states[attempt as int] == random@,
            lane@ == tries.last(),
            forall|j: int| 0 <= j < tries.len() - 1 ==> repeats_layout(prev, #[trigger] tries[j]),
            forall|j: int|
                0 <= j < tries.len() ==> forest_lane_drawn(#[trigger] tries[j], states[j], states[j + 1], count as nat, None)
                    && forest_lane(tries[j], section_id, kind, count as nat, None),
            attempt == 24 || !repeats_layout(prev, lane@),
        decreases 24 - attempt,
    {
        let repeats = match previous {
            Some(p) => {
                proof {
                    assert(lane@.columns_on_board());
                }
                let pm = p.layout_mask();
                let lm = lane.layout_mask();
                proof {
                    lemma_layout_masks_equal(p@, lane@, pm, lm);
                }
                pm == lm
            },
            None => false,
        };
        if !repeats {
            proof {
                stopped = true;
            }
            break;
        }
        lane = draw_forest_lane(random, section_id, kind, count, None);
        proof {
            tries = tries.push(lane@);
            states = states.push(random@);
        }
        attempt = attempt + 1;
    }
    proof {
        reveal(forest_lane_unlike_drawn);
        assert(unlike_search(lane@, prev, tries, states));
    }
    lane
}

fn draw_river_lane_unlike(random: &mut Random, previous: Option<&Lane>, section_id: usize, count: usize) -> (lane: Lane)
    requires
        3 <= count <= 4,
        previous matches Some(p) ==> p@.columns_on_board(),
    ensures
        river_lane(lane@, section_id, count as nat),
        river_lane_unlike_drawn(lane@, option_view(previous), old(random)@, final(random)@, count as nat, section_id),
{
    let ghost start = random@;
    let ghost prev = option_view(previous);
    let mut lane = draw_river_lane(random, section_id, count);
    let ghost mut tries: Seq<LaneView> = seq![lane@];
    let ghost mut states: Seq<u64> = seq![start, random@];
    let mut attempt: usize = 1;
    let ghost mut stopped = false;
    while attempt < 24
        invariant
            3 <= count <= 4,
            previous matches Some(p) ==> p@.columns_on_board(),
            prev == option_view(previous),
            river_lane(lane@, section_id, count as nat),
            1 <= attempt <= 24,
            tries.len() == attempt,
            states.len() == attempt + 1,
            states[0] == start,
            states[attempt as int] == random@,
            lane@ == tries.last(),
            forall|j: int| 0 <= j < tries.len() - 1 ==> repeats_layout(prev, #[trigger] tries[j]),
            forall|j: int|
                0 <= j < tries.len() ==> river_lane_drawn(#[trigger] tries[j], states[j], states[j + 1], count as nat)
                    && river_lane(tries[j], section_id, count as nat),
            stopped ==> !repeats_layout(prev, lane@),
        ensures
            river_lane(lane@, section_id, count as nat),
            1 <= attempt <= 24,
            tries.len() == attempt,
            states.len() == attempt + 1,
            states[0] == start,
            states[attempt as int] == random@,
            lane@ == tries.last(),
            forall|j: int| 0 <= j < tries.len() - 1 ==> repeats_layout(prev, #[trigger] tries[j]),
            forall|j: int|
                0 <= j < tries.len() ==> river_lane_drawn(#[trigger] tries[j], states[j], states[j + 1], count as nat)
                    && river_lane(tries[j], section_id, count as nat),
            attempt == 24 || !repeats_layout(prev, lane@),
        decreases 24 - attempt,
    {
        let repeats = match previous {
            Some(p) => {
                proof {
                    assert(lane@.columns_on_board());
                }
                let pm = p.layout_mask();
                let lm = lane.layout_mask();
                proof {
                    lemma_layout_masks_equal(p@, lane@, pm, lm);
                }
                pm == lm
            },
            None => false,
        };
        if !repeats {
            proof {
                stopped = true;
            }
            break;
        }
        lane = draw_river_lane(random, section_id, count);
        proof {
            tries = tries.push(lane@);
            states = states.push(random@);
        }
        attempt = attempt + 1;
    }
    proof {
        reveal(river_lane_unlike_drawn);
        assert(unlike_search(lane@, prev, tries, states));
    }
    lane
}

proof fn lemma_forest_lane_on_board(lane: LaneView, section_id: usize, kind: ForestSectionKind, count: nat)
    requires
        forest_lane(lane, section_id, kind, count, None),
    ensures
        lane.columns_on_board(),
        lane.obstacles_fit_mask(),
{
}

/// Obstacle counts for the lanes of a forest section of the given kind, in
/// the order they are drawn (before shuffling).
/// Obstacle counts drawn one lane at a time for a forest section of
/// `kind`: 3 plus a draw below 2 in a clearing or a grove, always 4 in a
/// thicket.
pub open spec fn lane_counts_drawn(state: u64, kind: ForestSectionKind, n: nat) -> (u64, Seq<usize>)
    decreases n,
{
    if n == 0 {
        (state, Seq::empty())
    } else {
        let (s, counts) = lane_counts_drawn(state, kind, (n - 1) as nat);
        if kind == ForestSectionKind::Thicket {
            (s, counts.push(4))
        } else {
            let (next, extra) = draw(s, 2);
            (next, counts.push((3 + extra) as usize))
        }
    }
}

/// The obstacle counts of the lanes of a forest section of `kind`, before
/// shuffling: the lane count (2 plus a draw below 3 for a grove, below 2
/// otherwise), the counts lane by lane, then in a clearing a lane drawn to
/// be open (no obstacles when a draw below 100 is under 35, else three)
/// and in a thicket a lane drawn to keep four.
pub open spec fn unshuffled_counts(state: u64, kind: ForestSectionKind) -> (u64, Seq<usize>) {
    let (s1, extra) = draw(
        state,
        if kind == ForestSectionKind::Grove {
            3
        } else {
            2
        },
    );
    let lane_count = (2 + extra) as usize;
    let (s2, counts) = lane_counts_drawn(s1, kind, lane_count as nat);
    match kind {
        ForestSectionKind::Clearing => {
            let (s3, open) = draw(s2, lane_count);
            let (s4, roll) = draw(s3, 100);
            (
                s4,
                counts.update(
                    open as int,
                    if roll < 35 {
                        0
                    } else {
                        3
                    },
                ),
            )
        },
        ForestSectionKind::Grove => (s2, counts),
        ForestSectionKind::Thicket => {
            let (s3, lane) = draw(s2, lane_count);
            (s3, counts.update(lane as int, 4))
        },
    }
}

/// The obstacle counts of the lanes of a forest section of `kind`: drawn,
/// then shuffled.
#[verifier::opaque]
pub open spec fn obstacle_counts_drawn(state: u64, kind: ForestSectionKind) -> (u64, Seq<usize>) {
    let (s, counts) = unshuffled_counts(state, kind);
    shuffle_spec(s, counts)
}

fn draw_unshuffled_counts(random: &mut Random, kind: ForestSectionKind) -> (counts: Vec<usize>)
    ensures
        allowed_lane_count(kind, counts@.len()),
        forall|j: int| 0 <= j < counts@.len() ==> allowed_obstacle_count(kind, #[trigger] counts@[j] as nat),
        counts@.to_multiset().count(0) <= 1,
        (final(random)@, counts@) == unshuffled_counts(old(random)@, kind),
{
    let lane_count = match kind {
        ForestSectionKind::Clearing => 2 + random.range(2),
        ForestSectionKind::Grove => 2 + random.range(3),
        ForestSectionKind::Thicket => 2 + random.range(2),
    };
    let ghost start = random@;
    let mut counts: Vec<usize> = Vec::new();
    let mut i: usize = 0;
    while i < lane_count
        invariant
            i <= lane_count,
            allowed_lane_count(kind, lane_count as nat),
            counts@.len() == i,
            forall|j: int|
                0 <= j < i ==> (#[trigger] counts@[j] == 3 || counts@[j] == 4) && (kind
                    == ForestSectionKind::Thicket ==> counts@[j] == 4),
            (random@, counts@) == lane_counts_drawn(start, kind, i as nat),
        decreases lane_count - i,
    {
        let count = match kind {
            ForestSectionKind::Clearing => 3 + random.range(2),
            ForestSectionKind::Grove => 3 + random.range(2),
            ForestSectionKind::Thicket => 4,
        };
        counts.push(count);
        i = i + 1;
    }
    proof {
        lemma_no_zero_count(counts@);
    }
    match kind {
        ForestSectionKind::Clearing => {
            let open_lane = random.range(lane_count);
            let value = if random.range(100) < 35 {
                0
            } else {
                3
            };
            proof {
                lemma_update_zero_count(counts@, open_lane as int, value);
            }
            counts.set(open_lane, value);
        },
        ForestSectionKind::Grove => {},
        ForestSectionKind::Thicket => {
            let index = random.range(lane_count);
            proof {
                lemma_update_zero_count(counts@, index as int, 4);
            }
            counts.set(index, 4);
        },
    }
    counts
}

proof fn lemma_no_zero_count(s: Seq<usize>)
    requires
        forall|j: int| 0 <= j < s.len() ==> #[trigger] s[j] != 0,
    ensures
        s.to_multiset().count(0) == 0,
{
    broadcast use vstd::seq_lib::group_to_multiset_ensures;
    assert(!s.contains(0));
}

proof fn lemma_update_zero_count(s: Seq<usize>, i: int, value: usize)
    requires
        0 <= i < s.len(),
        s.to_multiset().count(0) == 0,
    ensures
        s.update(i, value).to_multiset().count(0) <= 1,
{
    vstd::seq_lib::to_multiset_update(s, i, value);
    broadcast use vstd::multiset::group_multiset_axioms;
}

proof fn lemma_permutation_keeps_counts(kind: ForestSectionKind, before: Seq<usize>, after: Seq<usize>)
    requires
        after.to_multiset() == before.to_multiset(),
        forall|j: int| 0 <= j < before.len() ==> allowed_obstacle_count(kind, #[trigger] before[j] as nat),
    ensures
        after.len() == before.len(),
        forall|j: int| 0 <= j < after.len() ==> allowed_obstacle_count(kind, #[trigger] after[j] as nat),
{
    broadcast use vstd::seq_lib::group_to_multiset_ensures;
    assert forall|j: int| 0 <= j < after.len() implies allowed_obstacle_count(kind, #[trigger] after[j] as nat) by {
        assert(after.contains(after[j]));
        assert(after.to_multiset().count(after[j]) > 0);
        assert(before.contains(after[j]));
        let w = choose|w: int| 0 <= w < before.len() && before[w] == after[j];
    }
    vstd::seq_lib::to_multiset_len(before);
    vstd::seq_lib::to_multiset_len(after);
}

/// Obstacle counts for the lanes of a forest section of the given kind.
fn draw_obstacle_counts(random: &mut Random, kind: ForestSectionKind) -> (counts: Vec<usize>)
    ensures
        allowed_lane_count(kind, counts@.len()),
        forall|j: int| 0 <= j < counts@.len() ==> allowed_obstacle_count(kind, #[trigger] counts@[j] as nat),
        counts@.to_multiset().count(0) <= 1,
        (final(random)@, counts@) == obstacle_counts_drawn(old(random)@, kind),
{
    let mut counts = draw_unshuffled_counts(random, kind);
    let ghost before = counts@;
    random.shuffle(counts.as_mut_slice());
    proof {
        reveal(obstacle_counts_drawn);
        lemma_permutation_keeps_counts(kind, before, counts@);
    }
    counts
}

/// The lane before lane `k` of a section, if any.
pub open spec fn previous_lane(lanes: Seq<LaneView>, k: int) -> Option<LaneView> {
    if k == 0 {
        None
    } else {
        Some(lanes[k - 1])
    }
}

/// `states` runs from `start` to `end` over `n` steps.
pub open spec fn state_chain(states: Seq<u64>, n: nat, start: u64, end: u64) -> bool {
    &&& states.len() == n + 1
    &&& states[0] == start
    &&& states[n as int] == end
}

/// `lanes` are the lanes of a forest section of `kind` drawn from generator
/// state `start`, which the drawing leaves at `end`: the obstacle counts
/// are drawn and shuffled, then each lane is drawn with its count, unlike
/// the lane before it.
pub open spec fn forest_section_drawn(
    lanes: Seq<LaneView>,
    start: u64,
    end: u64,
    kind: ForestSectionKind,
    section_id: usize,
) -> bool {
    let (s, counts) = obstacle_counts_drawn(start, kind);
    &&& lanes.len() == counts.len()
    &&& exists|states: Seq<u64>|
        #[trigger] state_chain(states, lanes.len(), s, end) && forall|k: int|
            0 <= k < lanes.len() ==> forest_lane_unlike_drawn(
                #[trigger] lanes[k],
                previous_lane(lanes, k),
                states[k],
                states[k + 1],
                counts[k] as nat,
                section_id,
                kind,
            )
}

/// `lanes` are the lanes of a river section drawn from generator state
/// `start`, which the drawing leaves at `end`: 2 plus a draw below 3 lanes,
/// each with 3 plus a draw below 2 platforms and unlike the lane before it.
pub open spec fn river_section_drawn(lanes: Seq<LaneView>, start: u64, end: u64, section_id: usize) -> bool {
    let (s, extra) = draw(start, 3);
    &&& lanes.len() == 2 + extra
    &&& exists|states: Seq<u64>|
        #[trigger] state_chain(states, lanes.len(), s, end) && forall|k: int|
            0 <= k < lanes.len() ==> ({
                let (t, more) = draw(states[k], 2);
                river_lane_unlike_drawn(
                    #[trigger] lanes[k],
                    previous_lane(lanes, k),
                    t,
                    states[k + 1],
                    (3 + more) as nat,
                    section_id,
                )
            })
}

#[verifier::rlimit(40)]
fn draw_forest_section(random: &mut Random, section_id: usize, kind: ForestSectionKind) -> (section: Section)
    ensures
        forest_section(lane_views(section.lanes@), section_id, kind),
        signed_as(section, SectionKind::Forest(kind)),
        forest_section_drawn(lane_views(section.lanes@), old(random)@, final(random)@, kind, section_id),
{
    let ghost start = random@;
    let counts = draw_obstacle_counts(random, kind);
    let ghost mut states: Seq<u64> = seq![random@];
    let mut lanes: Vec<Lane> = Vec::new();
    let mut k: usize = 0;
    while k < counts.len()
        invariant
            (states[0], counts@) == obstacle_counts_drawn(start, kind),
            states.len() == k + 1,
            states[k as int] == random@,
            forall|j: int|
                0 <= j < k ==> forest_lane_unlike_drawn(
                    #[trigger] lane_views(lanes@)[j],
                    previous_lane(lane_views(lanes@), j),
                    states[j],
                    states[j + 1],
                    counts@[j] as nat,
                    section_id,
                    kind,
                ),
            k <= counts@.len(),
            allowed_lane_count(kind, counts@.len()),
            forall|j: int| 0 <= j < counts@.len() ==> allowed_obstacle_count(kind, #[trigger] counts@[j] as nat),
            lanes@.len() == k,
            forall|j: int|
                0 <= j < k ==> forest_lane(
                    (#[trigger] lanes@[j])@,
                    section_id,
                    kind,
                    counts@[j] as nat,
                    None,
                ),
        decreases counts@.len() - k,
    {
        let previous = if k == 0 {
            None
        } else {
            Some(&lanes[k - 1])
        };
        proof {
            if k > 0 {
                lemma_forest_lane_on_board(lanes@[k - 1]@, section_id, kind, counts@[k - 1] as nat);
            }
        }
        proof {
            if k > 0 {
                assert(lane_views(lanes@)[k - 1] == lanes@[k - 1]@);
            }
            assert(option_view(previous) == previous_lane(lane_views(lanes@), k as int));
        }
        let ghost before = lane_views(lanes@);
        let lane = draw_forest_lane_unlike(random, previous, section_id, kind, counts[k]);
        lanes.push(lane);
        proof {
            states = states.push(random@);
            let after = lane_views(lanes@);
            assert(after =~= before.push(lanes@[k as int]@));
            assert forall|j: int| 0 <= j < k + 1 implies forest_lane_unlike_drawn(
                #[trigger] after[j],
                previous_lane(after, j),
                states[j],
                states[j + 1],
                counts@[j] as nat,
                section_id,
                kind,
            ) by {
                if j < k {
                    assert(after[j] == before[j]);
                    assert(previous_lane(after, j) == previous_lane(before, j));
                } else {
                    assert(previous_lane(after, j) == previous_lane(before, k as int));
                }
            }
        }
        k = k + 1;
    }
    let ghost views = lane_views(lanes@);
    proof {
        let drawn = obstacle_counts_drawn(start, kind);
        assert(drawn.0 == states[0] && drawn.1 == counts@);
        assert(state_chain(states, views.len(), drawn.0, random@));
        assert(forall|j: int|
            0 <= j < views.len() ==> forest_lane_unlike_drawn(
                #[trigger] views[j],
                previous_lane(views, j),
                states[j],
                states[j + 1],
                drawn.1[j] as nat,
                section_id,
                kind,
            ));
        assert(forest_section_drawn(views, start, random@, kind, section_id));
    }
    proof {
        assert(obstacle_counts(views) =~= counts@.map_values(|c: usize| c as nat));
        assert forall|j: int| 0 <= j < lanes@.len() implies (#[trigger] lanes@[j])@.obstacles_fit_mask() by {
            lemma_forest_lane_on_board(lanes@[j]@, section_id, kind, counts@[j] as nat);
        }
        lemma_count_zero_nat(counts@);
    }
    Section::new(lanes, SectionKind::Forest(kind))
}

/// Counting zeros is the same for machine and natural numbers.
proof fn lemma_count_zero_nat(s: Seq<usize>)
    ensures
        s.map_values(|c: usize| c as nat).to_multiset().count(0) == s.to_multiset().count(0),
    decreases s.len(),
{
    broadcast use vstd::seq_lib::group_to_multiset_ensures;
    if s.len() > 0 {
        let t = s.drop_last();
        lemma_count_zero_nat(t);
        assert(s == t.push(s.last()));
        assert(s.map_values(|c: usize| c as nat) == t.map_values(|c: usize| c as nat).push(s.last() as nat));
    } else {
        assert(s.map_values(|c: usize| c as nat) =~= Seq::<nat>::empty());
        assert(s =~= Seq::<usize>::empty());
    }
}

fn draw_river_section(random: &mut Random, section_id: usize) -> (section: Section)
    ensures
        river_section(lane_views(section.lanes@), section_id),
        signed_as(section, SectionKind::River),
        river_section_drawn(lane_views(section.lanes@), old(random)@, final(random)@, section_id),
{
    let ghost start = random@;
    let lane_count = 2 + random.range(3);
    let ghost mut states: Seq<u64> = seq![random@];
    let mut lanes: Vec<Lane> = Vec::new();
    let mut k: usize = 0;
    while k < lane_count
        invariant
            (states[0], (lane_count - 2) as usize) == draw(start, 3),
            states.len() == k + 1,
            states[k as int] == random@,
            forall|j: int|
                0 <= j < k ==> ({
                    let (t, more) = draw(states[j], 2);
                    river_lane_unlike_drawn(
                        #[trigger] lane_views(lanes@)[j],
                        previous_lane(lane_views(lanes@), j),
                        t,
                        states[j + 1],
                        (3 + more) as nat,
                        section_id,
                    )
                }),
            k <= lane_count,
            2 <= lane_count <= 4,
            lanes@.len() == k,
            forall|j: int|
                0 <= j < k ==> river_lane((#[trigger] lanes@[j])@, section_id, lanes@[j]@.platforms.len())
                    && 3 <= lanes@[j]@.platforms.len() <= 4,
        decreases lane_count - k,
    {
        let platform_count = 3 + random.range(2);
        let previous = if k == 0 {
            None
        } else {
            Some(&lanes[k - 1])
        };
        proof {
            if k > 0 {
                assert(lane_views(lanes@)[k - 1] == lanes@[k - 1]@);
            }
            assert(option_view(previous) == previous_lane(lane_views(lanes@), k as int));
        }
        let ghost before = lane_views(lanes@);
        let lane = draw_river_lane_unlike(random, previous, section_id, platform_count);
        lanes.push(lane);
        proof {
            states = states.push(random@);
            let after = lane_views(lanes@);
            assert(after =~= before.push(lanes@[k as int]@));
            assert forall|j: int| 0 <= j < k + 1 implies ({
                let (t, more) = draw(states[j], 2);
                river_lane_unlike_drawn(
                    #[trigger] after[j],
                    previous_lane(after, j),
                    t,
                    states[j + 1],
                    (3 + more) as nat,
                    section_id,
                )
            }) by {
                if j < k {
                    assert(after[j] == before[j]);
                    assert(previous_lane(after, j) == previous_lane(before, j));
                } else {
                    assert(previous_lane(after, j) == previous_lane(before, k as int));
                }
            }
        }
        k = k + 1;
    }
    proof {
        assert forall|j: int| 0 <= j < lanes@.len() implies (#[trigger] lanes@[j])@.obstacles_fit_mask() by {}
    }
    let ghost views = lane_views(lanes@);
    proof {
        let d = draw(start, 3);
        assert(d.0 == states[0]);
        assert(views.len() == lane_count);
        assert(views.len() == 2 + d.1);
        assert(state_chain(states, views.len(), d.0, random@));
        assert(forall|j: int|
            0 <= j < views.len() ==> ({
                let (t, more) = draw(states[j], 2);
                river_lane_unlike_drawn(
                    #[trigger] views[j],
                    previous_lane(views, j),
                    t,
                    states[j + 1],
                    (3 + more) as nat,
                    section_id,
                )
            }));
        assert(river_section_drawn(views, start, random@, section_id));
    }
    Section::new(lanes, SectionKind::River)
}

/// The byte whose low seven bits are those of `mask` in mirrored order.
pub open spec fn mirrors(mirrored: u8, mask: u8) -> bool {
    &&& forall|c: int| 0 <= c < 7 ==> (has_bit(mirrored, 6 - c) <==> has_bit(mask, c))
    &&& !has_bit(mirrored, 7)
}

/// `mask` mirrored left-to-right over seven columns.
pub open spec fn mirror_of(mask: u8) -> u8 {
    choose|m: u8| mirrors(m, mask)
}

/// Every mask of a row mirrored.
pub open spec fn mirror_row(masks: Seq<u8>) -> Seq<u8> {
    masks.map_values(|m: u8| mirror_of(m))
}

/// Two remembered signatures are too much alike.
pub open spec fn too_similar(previous: (SectionKind, Seq<u8>), candidate: (SectionKind, Seq<u8>)) -> bool {
    &&& previous.0 == candidate.0
    &&& previous.1.len() == candidate.1.len()
    &&& (mask_difference_spec(previous.1, candidate.1) <= 2 || mask_difference_spec(
        previous.1,
        mirror_row(candidate.1),
    ) <= 2)
}

pub(crate) proof fn lemma_bytes_equal_by_bits(x: u8, y: u8)
    requires
        forall|c: int| 0 <= c < 8 ==> (has_bit(x, c) <==> has_bit(y, c)),
    ensures
        x == y,
{
    assert(has_bit(x, 0) == has_bit(y, 0));
    assert(has_bit(x, 1) == has_bit(y, 1));
    assert(has_bit(x, 2) == has_bit(y, 2));
    assert(has_bit(x, 3) == has_bit(y, 3));
    assert(has_bit(x, 4) == has_bit(y, 4));
    assert(has_bit(x, 5) == has_bit(y, 5));
    assert(has_bit(x, 6) == has_bit(y, 6));
    assert(has_bit(x, 7) == has_bit(y, 7));
    assert(x == y) by (bit_vector)
        requires
            ((x >> 0u8) & 1u8 == 1u8) == ((y >> 0u8) & 1u8 == 1u8),
            ((x >> 1u8) & 1u8 == 1u8) == ((y >> 1u8) & 1u8 == 1u8),
            ((x >> 2u8) & 1u8 == 1u8) == ((y >> 2u8) & 1u8 == 1u8),
            ((x >> 3u8) & 1u8 == 1u8) == ((y >> 3u8) & 1u8 == 1u8),
            ((x >> 4u8) & 1u8 == 1u8) == ((y >> 4u8) & 1u8 == 1u8),
            ((x >> 5u8) & 1u8 == 1u8) == ((y >> 5u8) & 1u8 == 1u8),
            ((x >> 6u8) & 1u8 == 1u8) == ((y >> 6u8) & 1u8 == 1u8),
            ((x >> 7u8) & 1u8 == 1u8) == ((y >> 7u8) & 1u8 == 1u8),
    ;
}

proof fn lemma_mirror_unique(mask: u8, m: u8)
    requires
        mirrors(m, mask),
    ensures
        m == mirror_of(mask),
{
    let chosen = mirror_of(mask);
    assert(mirrors(chosen, mask));
    assert forall|c: int| 0 <= c < 8 implies (has_bit(chosen, c) <==> has_bit(m, c)) by {
        if c < 7 {
            assert(has_bit(chosen, 6 - (6 - c)) <==> has_bit(mask, 6 - c));
            assert(has_bit(m, 6 - (6 - c)) <==> has_bit(mask, 6 - c));
        }
    }
    lemma_bytes_equal_by_bits(chosen, m);
}

/// How thickly a forest kind is wooded: clearings least, thickets most.
pub open spec fn forest_density(kind: ForestSectionKind) -> int {
    match kind {
        ForestSectionKind::Clearing => 0,
        ForestSectionKind::Grove => 1,
        ForestSectionKind::Thicket => 2,
    }
}

/// The odds of the forest kinds: at every score a higher roll never picks a
/// thinner forest (clearings take the lowest rolls, thickets the highest),
/// the lowest roll picks a clearing and the highest a thicket; a higher
/// score never picks a thinner forest for the same roll; and a roll under
/// 100 picks a clearing below 42, 28 and 18 and a thicket from 87, 72 and 55
/// at scores below ten, up to 34 and beyond.
pub proof fn lemma_forest_kind_odds(score: u32, higher_score: u32, roll: usize, higher_roll: usize)
    ensures
        roll <= higher_roll ==> forest_density(kind_for_roll(score, roll)) <= forest_density(
            kind_for_roll(score, higher_roll),
        ),
        score <= higher_score ==> forest_density(kind_for_roll(score, roll)) <= forest_density(
            kind_for_roll(higher_score, roll),
        ),
        kind_for_roll(score, 0) == ForestSectionKind::Clearing,
        kind_for_roll(score, 99) == ForestSectionKind::Thicket,
        score <= 9 && roll < 100 ==> (kind_for_roll(score, roll) == ForestSectionKind::Clearing <==> roll < 42),
        score <= 9 && roll < 100 ==> (kind_for_roll(score, roll) == ForestSectionKind::Thicket <==> roll >= 87),
        10 <= score <= 34 && roll < 100 ==> (kind_for_roll(score, roll) == ForestSectionKind::Clearing <==> roll
            < 28),
        10 <= score <= 34 && roll < 100 ==> (kind_for_roll(score, roll) == ForestSectionKind::Thicket <==> roll
            >= 72),
        35 <= score && roll < 100 ==> (kind_for_roll(score, roll) == ForestSectionKind::Clearing <==> roll < 18),
        35 <= score && roll < 100 ==> (kind_for_roll(score, roll) == ForestSectionKind::Thicket <==> roll >= 55),
{
}

proof fn lemma_river_search_is_river(
    result: (Seq<LaneView>, (SectionKind, Seq<u8>)),
    start: u64,
    end: u64,
    recent: Seq<(SectionKind, Seq<u8>)>,
    section_id: usize,
)
    requires
        river_section_searched(result, start, end, recent, section_id),
    ensures
        result.1.0 == SectionKind::River,
{
    reveal(river_section_searched);
    let (cs, sts) = choose|candidates: Seq<(Seq<LaneView>, (SectionKind, Seq<u8>))>, states: Seq<u64>|
        #[trigger] river_candidates(candidates, states, section_id) && states[0] == start && search_ends(
            candidates,
            states,
            recent,
            result,
            end,
            river_candidate(result, states[candidates.len() as int], end, section_id),
        );
    let n = cs.len() as int;
    if keeps_at_once(cs[n - 1], recent) {
        assert(river_candidate(cs[n - 1], sts[n - 1], sts[n], section_id));
    } else if exists|f: int| first_crossing(cs, f) {
        let f = choose|f: int| first_crossing(cs, f);
        assert(river_candidate(cs[f], sts[f], sts[f + 1], section_id));
    }
}

proof fn lemma_forest_search_is_forest(
    result: (Seq<LaneView>, (SectionKind, Seq<u8>)),
    start: u64,
    end: u64,
    score: u32,
    previous: Option<ForestSectionKind>,
    recent: Seq<(SectionKind, Seq<u8>)>,
    section_id: usize,
)
    requires
        forest_section_searched(result, start, end, score, previous, recent, section_id),
    ensures
        result.1.0 != SectionKind::River,
{
    reveal(forest_section_searched);
    let (cs, sts) = choose|candidates: Seq<(Seq<LaneView>, (SectionKind, Seq<u8>))>, states: Seq<u64>|
        #[trigger] forest_candidates(candidates, states, score, previous, section_id) && states[0] == start
            && search_ends(
            candidates,
            states,
            recent,
            result,
            end,
            result.1.0 == SectionKind::Forest(ForestSectionKind::Clearing) && masks_match(result.0, result.1.1)
                && forest_section(result.0, section_id, ForestSectionKind::Clearing) && forest_section_drawn(
                result.0,
                states[candidates.len() as int],
                end,
                ForestSectionKind::Clearing,
                section_id,
            ),
        );
    let n = cs.len() as int;
    if keeps_at_once(cs[n - 1], recent) {
        assert(forest_candidate(cs[n - 1], sts[n - 1], sts[n], score, previous, section_id));
    } else if exists|f: int| first_crossing(cs, f) {
        let f = choose|f: int| first_crossing(cs, f);
        assert(forest_candidate(cs[f], sts[f], sts[f + 1], score, previous, section_id));
    }
}

/// The river odds of the next section: after a river comes a forest; after
/// anything else the section is a river exactly when the generator's next
/// draw below 100 is under the score's river chance, 22 below ten points,
/// 28 up to 34 points and 34 beyond.
pub proof fn lemma_river_odds(
    result: (Seq<LaneView>, (SectionKind, Seq<u8>)),
    start: u64,
    end: u64,
    score: u32,
    recent: Seq<(SectionKind, Seq<u8>)>,
    section_id: usize,
)
    requires
        next_section_drawn(result, start, end, score, recent, section_id),
    ensures
        recent.len() > 0 && recent.last().0 == SectionKind::River ==> result.1.0 != SectionKind::River,
        !(recent.len() > 0 && recent.last().0 == SectionKind::River) ==> (result.1.0 == SectionKind::River
            <==> draw(start, 100).1 < (if score < 10 {
            22usize
        } else if score < 35 {
            28usize
        } else {
            34usize
        })),
{
    reveal(next_section_drawn);
    let (state, roll) = draw(start, 100);
    if !last_was_river(recent) && roll < river_chance_for(score) {
        lemma_river_search_is_river(result, state, end, recent, section_id);
    } else {
        let from = if last_was_river(recent) {
            start
        } else {
            state
        };
        lemma_forest_search_is_forest(result, from, end, score, last_forest_kind(recent), recent, section_id);
    }
}

/// Only sections of the same kind can be too alike: a signature is never
/// too similar to one of another kind, so a candidate whose kind differs
/// from every remembered one is never judged too similar.
pub proof fn lemma_similarity_needs_same_kind(
    recent: Seq<(SectionKind, Seq<u8>)>,
    previous: (SectionKind, Seq<u8>),
    candidate: (SectionKind, Seq<u8>),
)
    ensures
        previous.0 != candidate.0 ==> !too_similar(previous, candidate),
        (forall|i: int| 0 <= i < recent.len() ==> (#[trigger] recent[i]).0 != candidate.0) ==> !(exists|i: int|
            0 <= i < recent.len() && too_similar(#[trigger] recent[i], candidate)),
{
}

/// A signature is too similar to itself.
pub proof fn lemma_too_similar_to_itself(signature: (SectionKind, Seq<u8>))
    ensures
        too_similar(signature, signature),
{
    crate::masks::lemma_mask_difference_self(signature.1, signature.1.len() as int);
}

} // verus!
