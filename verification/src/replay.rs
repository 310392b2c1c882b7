//! Replaying a game: every drawing step is a function of the generator
//! state it starts from, so the first board and every lane recycled after it
//! come out the same for the same seed and the same moves.

use vstd::prelude::*;
use crate::game::{
    PICK_ATTEMPTS, first_crossing, forest_candidate, forest_candidates, forest_lane, forest_lane_drawn,
    forest_lane_unlike_drawn, forest_section, forest_section_drawn, forest_section_searched, keeps_at_once,
    kind_attempts, last_forest_kind, last_was_river, lemma_bytes_equal_by_bits, lemma_increasing_set_len,
    lowest_fill, next_section_drawn, obstacle_counts_drawn, option_set, pick_columns, previous_lane,
    repeats_layout, river_candidate, river_candidates, river_chance_for, river_lane, river_lane_drawn,
    river_lane_unlike_drawn, river_section_drawn, river_section_searched, search_ends, state_chain,
    unlike_search, LANE_COUNT, joined_lanes, keep_recent, window_drawn, window_sections, attempt_drawn,
    best_attempt, board_attempts, board_kept_at_once, emergency_drawn, first_board_drawn, BOARD_ATTEMPTS,
    lane_fits, lane_pick, lane_search, next_lane_drawn, SECTION_ATTEMPTS,
};
use crate::masks::has_bit;
use crate::random::draw;
use crate::world::{ForestSectionKind, LaneView, SectionKind, TILE_COLUMNS, masks_match, strictly_increasing};

verus! {

/// Two lists in increasing order with the same entries are the same list.
proof fn lemma_increasing_same_set(s1: Seq<usize>, s2: Seq<usize>)
    requires
        strictly_increasing(s1),
        strictly_increasing(s2),
        s1.to_set() == s2.to_set(),
    ensures
        s1 == s2,
    decreases s1.len(),
{
    lemma_increasing_set_len(s1);
    lemma_increasing_set_len(s2);
    if s1.len() == 0 {
        assert(s1 =~= s2);
    } else {
        let a = s1.last();
        let b = s2.last();
        assert(s1.contains(a));
        assert(s2.to_set().contains(a));
        let ia = choose|i: int| 0 <= i < s2.len() && s2[i] == a;
        assert(s2.contains(b));
        assert(s1.to_set().contains(b));
        let ib = choose|i: int| 0 <= i < s1.len() && s1[i] == b;
        assert(a <= b) by {
            if ia < s2.len() - 1 {
                assert(s2[ia] < s2[s2.len() - 1]);
            }
        }
        assert(b <= a) by {
            if ib < s1.len() - 1 {
                assert(s1[ib] < s1[s1.len() - 1]);
            }
        }
        let r1 = s1.drop_last();
        let r2 = s2.drop_last();
        assert forall|x: usize| r1.to_set().contains(x) <==> r2.to_set().contains(x) by {
            if r1.contains(x) {
                let i = choose|i: int| 0 <= i < r1.len() && r1[i] == x;
                assert(s1[i] == x);
                assert(s1[i] < s1[s1.len() - 1]);
                assert(s2.to_set().contains(x));
                let j = choose|j: int| 0 <= j < s2.len() && s2[j] == x;
                assert(j != s2.len() - 1);
                assert(r2[j] == x);
            }
            if r2.contains(x) {
                let i = choose|i: int| 0 <= i < r2.len() && r2[i] == x;
                assert(s2[i] == x);
                assert(s2[i] < s2[s2.len() - 1]);
                assert(s1.to_set().contains(x));
                let j = choose|j: int| 0 <= j < s1.len() && s1[j] == x;
                assert(j != s1.len() - 1);
                assert(r1[j] == x);
            }
        }
        assert(r1.to_set() =~= r2.to_set());
        lemma_increasing_same_set(r1, r2);
        assert(s1 =~= r1.push(a));
        assert(s2 =~= r2.push(b));
    }
}

/// Two lists in increasing order, of the same length, holding the same
/// columns of `skip` and otherwise the lowest columns outside `skip`, are
/// the same list.
proof fn lemma_lowest_same(s1: Seq<usize>, s2: Seq<usize>, skip: Set<usize>)
    requires
        strictly_increasing(s1),
        strictly_increasing(s2),
        s1.len() == s2.len(),
        lowest_fill(s1, skip),
        lowest_fill(s2, skip),
        forall|x: usize| skip.contains(x) ==> (s1.contains(x) <==> s2.contains(x)),
    ensures
        s1 == s2,
{
    lemma_increasing_set_len(s1);
    lemma_increasing_set_len(s2);
    let a = s1.to_set();
    let b = s2.to_set();
    let t1 = a.difference(skip);
    let t2 = b.difference(skip);
    let k1 = a.intersect(skip);
    let k2 = b.intersect(skip);
    assert(k1 =~= k2);
    vstd::set_lib::lemma_len_subset(t1, a);
    vstd::set_lib::lemma_len_subset(t2, b);
    vstd::set_lib::lemma_len_subset(k1, a);
    vstd::set_lib::lemma_len_subset(k2, b);
    vstd::set_lib::lemma_set_difference_len(a, k1);
    vstd::set_lib::lemma_set_difference_len(b, k2);
    assert(a.difference(k1) =~= t1);
    assert(b.difference(k2) =~= t2);
    assert(a.intersect(k1) =~= k1);
    assert(b.intersect(k2) =~= k2);
    assert(t1.len() == t2.len());
    if !t1.subset_of(t2) {
        let x = choose|x: usize| t1.contains(x) && !t2.contains(x);
        if t2.subset_of(t1) {
            vstd::set_lib::lemma_subset_equality(t2, t1);
            assert(false);
        }
        let y = choose|y: usize| t2.contains(y) && !t1.contains(y);
        assert(s1.contains(x));
        assert(s2.contains(y));
        if y < x {
            assert(s1.contains(y));
        } else {
            assert(x != y);
            assert(s2.contains(x));
        }
    }
    vstd::set_lib::lemma_subset_equality(t1, t2);
    assert forall|x: usize| a.contains(x) <==> b.contains(x) by {
        if skip.contains(x) {
        } else {
            assert(t1.contains(x) == a.contains(x));
            assert(t2.contains(x) == b.contains(x));
        }
    }
    assert(a =~= b);
    lemma_increasing_same_set(s1, s2);
}

/// A forest lane drawn twice from the same generator state, for the same
/// section, kind, obstacle count and open column, comes out the same and
/// leaves the generator in the same state.
pub proof fn lemma_forest_lane_same(
    l1: LaneView,
    l2: LaneView,
    start: u64,
    e1: u64,
    e2: u64,
    count: nat,
    forced_open: Option<usize>,
    section_id: usize,
    kind: ForestSectionKind,
)
    requires
        forest_lane(l1, section_id, kind, count, forced_open),
        forest_lane(l2, section_id, kind, count, forced_open),
        forest_lane_drawn(l1, start, e1, count, forced_open),
        forest_lane_drawn(l2, start, e2, count, forced_open),
    ensures
        l1 == l2,
        e1 == e2,
{
    let (state, kept) = pick_columns(start, Set::empty(), count, forced_open, PICK_ATTEMPTS as nat);
    if kept.len() >= count {
        lemma_increasing_same_set(l1.obstacles, l2.obstacles);
    } else {
        assert forall|x: usize| option_set(forced_open).contains(x) implies (l1.obstacles.contains(x)
            <==> l2.obstacles.contains(x)) by {
            assert(forced_open == Some(x));
        }
        lemma_lowest_same(l1.obstacles, l2.obstacles, option_set(forced_open));
    }
    assert(l1.platforms =~= l2.platforms);
}

/// A river lane drawn twice from the same generator state, for the same
/// section and platform count, comes out the same and leaves the generator
/// in the same state.
pub proof fn lemma_river_lane_same(l1: LaneView, l2: LaneView, start: u64, e1: u64, e2: u64, count: nat, section_id: usize)
    requires
        river_lane(l1, section_id, count),
        river_lane(l2, section_id, count),
        river_lane_drawn(l1, start, e1, count),
        river_lane_drawn(l2, start, e2, count),
    ensures
        l1 == l2,
        e1 == e2,
{
    let (first, pair_start) = draw(start, (TILE_COLUMNS - 1) as usize);
    let pair = set![pair_start, (pair_start + 1) as usize];
    let (state, kept) = pick_columns(first, pair, count, None, PICK_ATTEMPTS as nat);
    if kept.len() >= count {
        lemma_increasing_same_set(l1.platforms, l2.platforms);
    } else {
        assert forall|x: usize| pair.contains(x) implies (l1.platforms.contains(x) <==> l2.platforms.contains(x)) by {}
        lemma_lowest_same(l1.platforms, l2.platforms, pair);
    }
    assert(l1.obstacles =~= l2.obstacles);
}

/// Draws that a relation `drawn` ties to their start state alone agree
/// along two chains that start in the same state, as far as both go.
proof fn lemma_chains_agree<T>(
    t1: Seq<T>,
    st1: Seq<u64>,
    t2: Seq<T>,
    st2: Seq<u64>,
    drawn: spec_fn(T, u64, u64) -> bool,
    k: int,
)
    requires
        st1.len() == t1.len() + 1,
        st2.len() == t2.len() + 1,
        st1[0] == st2[0],
        0 <= k <= t1.len(),
        k <= t2.len(),
        forall|j: int| 0 <= j < t1.len() ==> drawn(#[trigger] t1[j], st1[j], st1[j + 1]),
        forall|j: int| 0 <= j < t2.len() ==> drawn(#[trigger] t2[j], st2[j], st2[j + 1]),
        forall|a: T, b: T, s: u64, x: u64, y: u64|
            #![trigger drawn(a, s, x), drawn(b, s, y)]
            drawn(a, s, x) && drawn(b, s, y) ==> a == b && x == y,
    ensures
        forall|i: int| 0 <= i <= k ==> st1[i] == st2[i],
        forall|i: int| 0 <= i < k ==> t1[i] == t2[i],
    decreases k,
{
    if k > 0 {
        lemma_chains_agree(t1, st1, t2, st2, drawn, k - 1);
        assert(drawn(t1[k - 1], st1[k - 1], st1[k]));
        assert(drawn(t2[k - 1], st2[k - 1], st2[k]));
    }
}

/// Two searches for a lane unlike `previous`, whose draws are tied to their
/// start state alone, keep the same lane and end in the same state.
proof fn lemma_unlike_same(
    previous: Option<LaneView>,
    l1: LaneView,
    t1: Seq<LaneView>,
    st1: Seq<u64>,
    l2: LaneView,
    t2: Seq<LaneView>,
    st2: Seq<u64>,
    drawn: spec_fn(LaneView, u64, u64) -> bool,
)
    requires
        unlike_search(l1, previous, t1, st1),
        unlike_search(l2, previous, t2, st2),
        st1[0] == st2[0],
        forall|j: int| 0 <= j < t1.len() ==> drawn(#[trigger] t1[j], st1[j], st1[j + 1]),
        forall|j: int| 0 <= j < t2.len() ==> drawn(#[trigger] t2[j], st2[j], st2[j + 1]),
        forall|a: LaneView, b: LaneView, s: u64, x: u64, y: u64|
            #![trigger drawn(a, s, x), drawn(b, s, y)]
            drawn(a, s, x) && drawn(b, s, y) ==> a == b && x == y,
    ensures
        l1 == l2,
        st1[t1.len() as int] == st2[t2.len() as int],
{
    let n1 = t1.len() as int;
    let n2 = t2.len() as int;
    let m = if n1 < n2 {
        n1
    } else {
        n2
    };
    lemma_chains_agree(t1, st1, t2, st2, drawn, m);
    if n1 < n2 {
        assert(repeats_layout(previous, t2[n1 - 1]));
        assert(t1[n1 - 1] == t2[n1 - 1]);
        assert(false);
    }
    if n2 < n1 {
        assert(repeats_layout(previous, t1[n2 - 1]));
        assert(t1[n2 - 1] == t2[n2 - 1]);
        assert(false);
    }
}

/// A forest lane drawn twice, unlike the same previous lane, from the same
/// generator state comes out the same and leaves the same state.
pub proof fn lemma_forest_unlike_same(
    l1: LaneView,
    l2: LaneView,
    previous: Option<LaneView>,
    start: u64,
    e1: u64,
    e2: u64,
    count: nat,
    section_id: usize,
    kind: ForestSectionKind,
)
    requires
        forest_lane_unlike_drawn(l1, previous, start, e1, count, section_id, kind),
        forest_lane_unlike_drawn(l2, previous, start, e2, count, section_id, kind),
    ensures
        l1 == l2,
        e1 == e2,
{
    reveal(forest_lane_unlike_drawn);
    let (t1, st1) = choose|tries: Seq<LaneView>, states: Seq<u64>|
        #[trigger] unlike_search(l1, previous, tries, states) && states[0] == start && states[tries.len() as int]
            == e1 && forall|j: int|
            0 <= j < tries.len() ==> forest_lane_drawn(#[trigger] tries[j], states[j], states[j + 1], count, None)
                && forest_lane(tries[j], section_id, kind, count, None);
    let (t2, st2) = choose|tries: Seq<LaneView>, states: Seq<u64>|
        #[trigger] unlike_search(l2, previous, tries, states) && states[0] == start && states[tries.len() as int]
            == e2 && forall|j: int|
            0 <= j < tries.len() ==> forest_lane_drawn(#[trigger] tries[j], states[j], states[j + 1], count, None)
                && forest_lane(tries[j], section_id, kind, count, None);
    let drawn = |l: LaneView, s: u64, e: u64|
        forest_lane_drawn(l, s, e, count, None) && forest_lane(l, section_id, kind, count, None);
    assert forall|a: LaneView, b: LaneView, s: u64, x: u64, y: u64|
        #![trigger drawn(a, s, x), drawn(b, s, y)]
        drawn(a, s, x) && drawn(b, s, y) implies a == b && x == y by {
        lemma_forest_lane_same(a, b, s, x, y, count, None, section_id, kind);
    }
    lemma_unlike_same(previous, l1, t1, st1, l2, t2, st2, drawn);
}

/// A river lane drawn twice, unlike the same previous lane, from the same
/// generator state comes out the same and leaves the same state.
pub proof fn lemma_river_unlike_same(
    l1: LaneView,
    l2: LaneView,
    previous: Option<LaneView>,
    start: u64,
    e1: u64,
    e2: u64,
    count: nat,
    section_id: usize,
)
    requires
        river_lane_unlike_drawn(l1, previous, start, e1, count, section_id),
        river_lane_unlike_drawn(l2, previous, start, e2, count, section_id),
    ensures
        l1 == l2,
        e1 == e2,
{
    reveal(river_lane_unlike_drawn);
    let (t1, st1) = choose|tries: Seq<LaneView>, states: Seq<u64>|
        #[trigger] unlike_search(l1, previous, tries, states) && states[0] == start && states[tries.len() as int]
            == e1 && forall|j: int|
            0 <= j < tries.len() ==> river_lane_drawn(#[trigger] tries[j], states[j], states[j + 1], count)
                && river_lane(tries[j], section_id, count);
    let (t2, st2) = choose|tries: Seq<LaneView>, states: Seq<u64>|
        #[trigger] unlike_search(l2, previous, tries, states) && states[0] == start && states[tries.len() as int]
            == e2 && forall|j: int|
            0 <= j < tries.len() ==> river_lane_drawn(#[trigger] tries[j], states[j], states[j + 1], count)
                && river_lane(tries[j], section_id, count);
    let drawn = |l: LaneView, s: u64, e: u64| river_lane_drawn(l, s, e, count) && river_lane(l, section_id, count);
    assert forall|a: LaneView, b: LaneView, s: u64, x: u64, y: u64|
        #![trigger drawn(a, s, x), drawn(b, s, y)]
        drawn(a, s, x) && drawn(b, s, y) implies a == b && x == y by {
        lemma_river_lane_same(a, b, s, x, y, count, section_id);
    }
    lemma_unlike_same(previous, l1, t1, st1, l2, t2, st2, drawn);
}

/// The lanes of two forest sections drawn lane by lane from the same state,
/// with the same counts, agree as far as `k`.
proof fn lemma_forest_lanes_agree(
    lanes1: Seq<LaneView>,
    st1: Seq<u64>,
    lanes2: Seq<LaneView>,
    st2: Seq<u64>,
    counts: Seq<usize>,
    kind: ForestSectionKind,
    section_id: usize,
    k: int,
)
    requires
        lanes1.len() == counts.len(),
        lanes2.len() == counts.len(),
        st1.len() == lanes1.len() + 1,
        st2.len() == lanes2.len() + 1,
        st1[0] == st2[0],
        0 <= k <= counts.len(),
        forall|j: int|
            0 <= j < lanes1.len() ==> #[trigger] forest_lane_unlike_drawn(
                lanes1[j],
                previous_lane(lanes1, j),
                st1[j],
                st1[j + 1],
                counts[j] as nat,
                section_id,
                kind,
            ),
        forall|j: int|
            0 <= j < lanes2.len() ==> #[trigger] forest_lane_unlike_drawn(
                lanes2[j],
                previous_lane(lanes2, j),
                st2[j],
                st2[j + 1],
                counts[j] as nat,
                section_id,
                kind,
            ),
    ensures
        forall|i: int| 0 <= i <= k ==> st1[i] == st2[i],
        forall|i: int| 0 <= i < k ==> lanes1[i] == lanes2[i],
    decreases k,
{
    if k > 0 {
        lemma_forest_lanes_agree(lanes1, st1, lanes2, st2, counts, kind, section_id, k - 1);
        let j = k - 1;
        let p1 = previous_lane(lanes1, j);
        let p2 = previous_lane(lanes2, j);
        assert(p1 == p2) by {
            if j > 0 {
                assert(lanes1[j - 1] == lanes2[j - 1]);
            }
        }
        let c = counts[j] as nat;
        let a = lanes1[j];
        let b = lanes2[j];
        assert(forest_lane_unlike_drawn(a, p1, st1[j], st1[j + 1], c, section_id, kind));
        assert(forest_lane_unlike_drawn(b, p2, st2[j], st2[j + 1], c, section_id, kind));
        lemma_forest_unlike_same(a, b, p1, st1[j], st1[j + 1], st2[j + 1], c, section_id, kind);
    }
}

/// A forest section drawn twice from the same generator state comes out the
/// same and leaves the same state.
pub proof fn lemma_forest_section_same(
    lanes1: Seq<LaneView>,
    lanes2: Seq<LaneView>,
    start: u64,
    e1: u64,
    e2: u64,
    kind: ForestSectionKind,
    section_id: usize,
)
    requires
        forest_section_drawn(lanes1, start, e1, kind, section_id),
        forest_section_drawn(lanes2, start, e2, kind, section_id),
    ensures
        lanes1 == lanes2,
        e1 == e2,
{
    let (s, counts) = obstacle_counts_drawn(start, kind);
    let st1 = choose|states: Seq<u64>|
        #[trigger] state_chain(states, lanes1.len(), s, e1) && forall|k: int|
            0 <= k < lanes1.len() ==> forest_lane_unlike_drawn(
                #[trigger] lanes1[k],
                previous_lane(lanes1, k),
                states[k],
                states[k + 1],
                counts[k] as nat,
                section_id,
                kind,
            );
    let st2 = choose|states: Seq<u64>|
        #[trigger] state_chain(states, lanes2.len(), s, e2) && forall|k: int|
            0 <= k < lanes2.len() ==> forest_lane_unlike_drawn(
                #[trigger] lanes2[k],
                previous_lane(lanes2, k),
                states[k],
                states[k + 1],
                counts[k] as nat,
                section_id,
                kind,
            );
    lemma_forest_lanes_agree(lanes1, st1, lanes2, st2, counts, kind, section_id, counts.len() as int);
    assert(lanes1 =~= lanes2);
}

/// The lanes of two river sections drawn lane by lane from the same state
/// agree as far as `k`.
proof fn lemma_river_lanes_agree(
    lanes1: Seq<LaneView>,
    st1: Seq<u64>,
    lanes2: Seq<LaneView>,
    st2: Seq<u64>,
    section_id: usize,
    k: int,
)
    requires
        lanes1.len() == lanes2.len(),
        st1.len() == lanes1.len() + 1,
        st2.len() == lanes2.len() + 1,
        st1[0] == st2[0],
        0 <= k <= lanes1.len(),
        forall|j: int|
            0 <= j < lanes1.len() ==> ({
                let (t, more) = draw(st1[j], 2);
                river_lane_unlike_drawn(#[trigger] lanes1[j], previous_lane(lanes1, j), t, st1[j + 1], (3 + more) as nat, section_id)
            }),
        forall|j: int|
            0 <= j < lanes2.len() ==> ({
                let (t, more) = draw(st2[j], 2);
                river_lane_unlike_drawn(#[trigger] lanes2[j], previous_lane(lanes2, j), t, st2[j + 1], (3 + more) as nat, section_id)
            }),
    ensures
        forall|i: int| 0 <= i <= k ==> st1[i] == st2[i],
        forall|i: int| 0 <= i < k ==> lanes1[i] == lanes2[i],
    decreases k,
{
    if k > 0 {
        lemma_river_lanes_agree(lanes1, st1, lanes2, st2, section_id, k - 1);
        let j = k - 1;
        assert(previous_lane(lanes1, j) == previous_lane(lanes2, j));
        let (t, more) = draw(st1[j], 2);
        assert(river_lane_unlike_drawn(lanes1[j], previous_lane(lanes1, j), t, st1[j + 1], (3 + more) as nat, section_id));
        assert(river_lane_unlike_drawn(lanes2[j], previous_lane(lanes2, j), t, st2[j + 1], (3 + more) as nat, section_id));
        lemma_river_unlike_same(lanes1[j], lanes2[j], previous_lane(lanes1, j), t, st1[j + 1], st2[j + 1], (3 + more) as nat, section_id);
    }
}

/// A river section drawn twice from the same generator state comes out the
/// same and leaves the same state.
pub proof fn lemma_river_section_same(
    lanes1: Seq<LaneView>,
    lanes2: Seq<LaneView>,
    start: u64,
    e1: u64,
    e2: u64,
    section_id: usize,
)
    requires
        river_section_drawn(lanes1, start, e1, section_id),
        river_section_drawn(lanes2, start, e2, section_id),
    ensures
        lanes1 == lanes2,
        e1 == e2,
{
    let (s, extra) = draw(start, 3);
    let st1 = choose|states: Seq<u64>|
        #[trigger] state_chain(states, lanes1.len(), s, e1) && forall|k: int|
            0 <= k < lanes1.len() ==> ({
                let (t, more) = draw(states[k], 2);
                river_lane_unlike_drawn(#[trigger] lanes1[k], previous_lane(lanes1, k), t, states[k + 1], (3 + more) as nat, section_id)
            });
    let st2 = choose|states: Seq<u64>|
        #[trigger] state_chain(states, lanes2.len(), s, e2) && forall|k: int|
            0 <= k < lanes2.len() ==> ({
                let (t, more) = draw(states[k], 2);
                river_lane_unlike_drawn(#[trigger] lanes2[k], previous_lane(lanes2, k), t, states[k + 1], (3 + more) as nat, section_id)
            });
    lemma_river_lanes_agree(lanes1, st1, lanes2, st2, section_id, lanes1.len() as int);
    assert(lanes1 =~= lanes2);
}

/// A row of masks that matches a row of lanes is the only one that does.
proof fn lemma_masks_same(lanes: Seq<LaneView>, m1: Seq<u8>, m2: Seq<u8>)
    requires
        masks_match(lanes, m1),
        masks_match(lanes, m2),
    ensures
        m1 == m2,
{
    assert forall|i: int| 0 <= i < m1.len() implies m1[i] == m2[i] by {
        assert forall|c: int| 0 <= c < 8 implies (has_bit(m1[i], c) <==> has_bit(m2[i], c)) by {
            assert(has_bit(m1[i], c) <==> lanes[i].obstacles.contains(c as usize));
            assert(has_bit(m2[i], c) <==> lanes[i].obstacles.contains(c as usize));
        }
        lemma_bytes_equal_by_bits(m1[i], m2[i]);
    }
    assert(m1 =~= m2);
}

/// Two section searches over candidates whose draws are tied to their start
/// state alone, with the same remembered signatures, settle on the same
/// section and leave the same state.
proof fn lemma_search_same(
    c1: Seq<(Seq<LaneView>, (SectionKind, Seq<u8>))>,
    st1: Seq<u64>,
    r1: (Seq<LaneView>, (SectionKind, Seq<u8>)),
    e1: u64,
    c2: Seq<(Seq<LaneView>, (SectionKind, Seq<u8>))>,
    st2: Seq<u64>,
    r2: (Seq<LaneView>, (SectionKind, Seq<u8>)),
    e2: u64,
    recent: Seq<(SectionKind, Seq<u8>)>,
    drawn: spec_fn((Seq<LaneView>, (SectionKind, Seq<u8>)), u64, u64) -> bool,
    fresh: spec_fn((Seq<LaneView>, (SectionKind, Seq<u8>)), u64, u64) -> bool,
)
    requires
        st1.len() == c1.len() + 1,
        st2.len() == c2.len() + 1,
        st1[0] == st2[0],
        forall|j: int| 0 <= j < c1.len() ==> drawn(#[trigger] c1[j], st1[j], st1[j + 1]),
        forall|j: int| 0 <= j < c2.len() ==> drawn(#[trigger] c2[j], st2[j], st2[j + 1]),
        forall|a: (Seq<LaneView>, (SectionKind, Seq<u8>)), b: (Seq<LaneView>, (SectionKind, Seq<u8>)), s: u64, x: u64, y: u64|
            #![trigger drawn(a, s, x), drawn(b, s, y)]
            drawn(a, s, x) && drawn(b, s, y) ==> a == b && x == y,
        forall|a: (Seq<LaneView>, (SectionKind, Seq<u8>)), b: (Seq<LaneView>, (SectionKind, Seq<u8>)), s: u64, x: u64, y: u64|
            #![trigger fresh(a, s, x), fresh(b, s, y)]
            fresh(a, s, x) && fresh(b, s, y) ==> a == b && x == y,
        search_ends(c1, st1, recent, r1, e1, fresh(r1, st1[c1.len() as int], e1)),
        search_ends(c2, st2, recent, r2, e2, fresh(r2, st2[c2.len() as int], e2)),
    ensures
        r1 == r2,
        e1 == e2,
{
    let n1 = c1.len() as int;
    let n2 = c2.len() as int;
    let m = if n1 < n2 {
        n1
    } else {
        n2
    };
    lemma_chains_agree(c1, st1, c2, st2, drawn, m);
    if n1 < n2 {
        assert(c1[n1 - 1] == c2[n1 - 1]);
        assert(!keeps_at_once(c2[n1 - 1], recent));
        assert(false);
    }
    if n2 < n1 {
        assert(c1[n2 - 1] == c2[n2 - 1]);
        assert(!keeps_at_once(c1[n2 - 1], recent));
        assert(false);
    }
    assert(c1 =~= c2);
    if !keeps_at_once(c1[n1 - 1], recent) {
        if exists|f: int| first_crossing(c1, f) {
            let f = choose|f: int| first_crossing(c1, f);
            assert(first_crossing(c2, f));
        } else {
            assert forall|f: int| !first_crossing(c2, f) by {
                if first_crossing(c2, f) {
                    assert(first_crossing(c1, f));
                }
            }
            assert(fresh(r1, st1[n1], e1));
            assert(fresh(r2, st2[n2], e2));
        }
    }
}

/// A forest candidate drawn twice from the same state comes out the same
/// and leaves the same state.
proof fn lemma_forest_candidate_same(
    a: (Seq<LaneView>, (SectionKind, Seq<u8>)),
    b: (Seq<LaneView>, (SectionKind, Seq<u8>)),
    start: u64,
    x: u64,
    y: u64,
    score: u32,
    previous: Option<ForestSectionKind>,
    section_id: usize,
)
    requires
        forest_candidate(a, start, x, score, previous, section_id),
        forest_candidate(b, start, y, score, previous, section_id),
    ensures
        a == b,
        x == y,
{
    let (state, kind) = kind_attempts(start, score, previous, 12);
    lemma_forest_section_same(a.0, b.0, state, x, y, kind, section_id);
    lemma_masks_same(a.0, a.1.1, b.1.1);
}

/// A river candidate drawn twice from the same state comes out the same
/// and leaves the same state.
proof fn lemma_river_candidate_same(
    a: (Seq<LaneView>, (SectionKind, Seq<u8>)),
    b: (Seq<LaneView>, (SectionKind, Seq<u8>)),
    start: u64,
    x: u64,
    y: u64,
    section_id: usize,
)
    requires
        river_candidate(a, start, x, section_id),
        river_candidate(b, start, y, section_id),
    ensures
        a == b,
        x == y,
{
    lemma_river_section_same(a.0, b.0, start, x, y, section_id);
    lemma_masks_same(a.0, a.1.1, b.1.1);
}

/// A forest section search run twice from the same state, score, last
/// forest kind and remembered signatures settles on the same section and
/// leaves the same state.
pub proof fn lemma_forest_search_same(
    r1: (Seq<LaneView>, (SectionKind, Seq<u8>)),
    r2: (Seq<LaneView>, (SectionKind, Seq<u8>)),
    start: u64,
    e1: u64,
    e2: u64,
    score: u32,
    previous: Option<ForestSectionKind>,
    recent: Seq<(SectionKind, Seq<u8>)>,
    section_id: usize,
)
    requires
        forest_section_searched(r1, start, e1, score, previous, recent, section_id),
        forest_section_searched(r2, start, e2, score, previous, recent, section_id),
    ensures
        r1 == r2,
        e1 == e2,
{
    reveal(forest_section_searched);
    let drawn = |c: (Seq<LaneView>, (SectionKind, Seq<u8>)), s: u64, e: u64|
        forest_candidate(c, s, e, score, previous, section_id);
    let fresh = |r: (Seq<LaneView>, (SectionKind, Seq<u8>)), s: u64, e: u64|
        r.1.0 == SectionKind::Forest(ForestSectionKind::Clearing) && masks_match(r.0, r.1.1) && forest_section(
            r.0,
            section_id,
            ForestSectionKind::Clearing,
        ) && forest_section_drawn(r.0, s, e, ForestSectionKind::Clearing, section_id);
    let (c1, st1) = choose|candidates: Seq<(Seq<LaneView>, (SectionKind, Seq<u8>))>, states: Seq<u64>|
        #[trigger] forest_candidates(candidates, states, score, previous, section_id) && states[0] == start
            && search_ends(candidates, states, recent, r1, e1, fresh(r1, states[candidates.len() as int], e1));
    let (c2, st2) = choose|candidates: Seq<(Seq<LaneView>, (SectionKind, Seq<u8>))>, states: Seq<u64>|
        #[trigger] forest_candidates(candidates, states, score, previous, section_id) && states[0] == start
            && search_ends(candidates, states, recent, r2, e2, fresh(r2, states[candidates.len() as int], e2));
    assert forall|a: (Seq<LaneView>, (SectionKind, Seq<u8>)), b: (Seq<LaneView>, (SectionKind, Seq<u8>)), s: u64, x: u64, y: u64|
        #![trigger drawn(a, s, x), drawn(b, s, y)]
        drawn(a, s, x) && drawn(b, s, y) implies a == b && x == y by {
        lemma_forest_candidate_same(a, b, s, x, y, score, previous, section_id);
    }
    assert forall|a: (Seq<LaneView>, (SectionKind, Seq<u8>)), b: (Seq<LaneView>, (SectionKind, Seq<u8>)), s: u64, x: u64, y: u64|
        #![trigger fresh(a, s, x), fresh(b, s, y)]
        fresh(a, s, x) && fresh(b, s, y) implies a == b && x == y by {
        lemma_forest_section_same(a.0, b.0, s, x, y, ForestSectionKind::Clearing, section_id);
        lemma_masks_same(a.0, a.1.1, b.1.1);
    }
    lemma_search_same(c1, st1, r1, e1, c2, st2, r2, e2, recent, drawn, fresh);
}

/// A river section search run twice from the same state and remembered
/// signatures settles on the same section and leaves the same state.
pub proof fn lemma_river_search_same(
    r1: (Seq<LaneView>, (SectionKind, Seq<u8>)),
    r2: (Seq<LaneView>, (SectionKind, Seq<u8>)),
    start: u64,
    e1: u64,
    e2: u64,
    recent: Seq<(SectionKind, Seq<u8>)>,
    section_id: usize,
)
    requires
        river_section_searched(r1, start, e1, recent, section_id),
        river_section_searched(r2, start, e2, recent, section_id),
    ensures
        r1 == r2,
        e1 == e2,
{
    reveal(river_section_searched);
    let drawn = |c: (Seq<LaneView>, (SectionKind, Seq<u8>)), s: u64, e: u64| river_candidate(c, s, e, section_id);
    let (c1, st1) = choose|candidates: Seq<(Seq<LaneView>, (SectionKind, Seq<u8>))>, states: Seq<u64>|
        #[trigger] river_candidates(candidates, states, section_id) && states[0] == start && search_ends(
            candidates,
            states,
            recent,
            r1,
            e1,
            drawn(r1, states[candidates.len() as int], e1),
        );
    let (c2, st2) = choose|candidates: Seq<(Seq<LaneView>, (SectionKind, Seq<u8>))>, states: Seq<u64>|
        #[trigger] river_candidates(candidates, states, section_id) && states[0] == start && search_ends(
            candidates,
            states,
            recent,
            r2,
            e2,
            drawn(r2, states[candidates.len() as int], e2),
        );
    assert forall|a: (Seq<LaneView>, (SectionKind, Seq<u8>)), b: (Seq<LaneView>, (SectionKind, Seq<u8>)), s: u64, x: u64, y: u64|
        #![trigger drawn(a, s, x), drawn(b, s, y)]
        drawn(a, s, x) && drawn(b, s, y) implies a == b && x == y by {
        lemma_river_candidate_same(a, b, s, x, y, section_id);
    }
    lemma_search_same(c1, st1, r1, e1, c2, st2, r2, e2, recent, drawn, drawn);
}

/// The next section drawn twice from the same state, score and remembered
/// signatures comes out the same and leaves the same state.
pub proof fn lemma_next_section_same(
    r1: (Seq<LaneView>, (SectionKind, Seq<u8>)),
    r2: (Seq<LaneView>, (SectionKind, Seq<u8>)),
    start: u64,
    e1: u64,
    e2: u64,
    score: u32,
    recent: Seq<(SectionKind, Seq<u8>)>,
    section_id: usize,
)
    requires
        next_section_drawn(r1, start, e1, score, recent, section_id),
        next_section_drawn(r2, start, e2, score, recent, section_id),
    ensures
        r1 == r2,
        e1 == e2,
{
    reveal(next_section_drawn);
    let (state, roll) = draw(start, 100);
    if !last_was_river(recent) && roll < river_chance_for(score) {
        lemma_river_search_same(r1, r2, state, e1, e2, recent, section_id);
    } else {
        let from = if last_was_river(recent) {
            start
        } else {
            state
        };
        lemma_forest_search_same(r1, r2, from, e1, e2, score, last_forest_kind(recent), recent, section_id);
    }
}

/// Sections that agree up to `k` give the same lanes up to `k`.
proof fn lemma_joined_same(
    s1: Seq<(Seq<LaneView>, (SectionKind, Seq<u8>))>,
    s2: Seq<(Seq<LaneView>, (SectionKind, Seq<u8>))>,
    k: int,
)
    requires
        0 <= k <= s1.len(),
        k <= s2.len(),
        forall|i: int| 0 <= i < k ==> s1[i] == s2[i],
    ensures
        joined_lanes(s1, k) == joined_lanes(s2, k),
    decreases k,
{
    if k > 0 {
        lemma_joined_same(s1, s2, k - 1);
    }
}

/// The shape of the sections a first board draws.
proof fn lemma_window_shape(
    s: Seq<(Seq<LaneView>, (SectionKind, Seq<u8>))>,
    st: Seq<u64>,
    m: Seq<Seq<(SectionKind, Seq<u8>)>>,
    river_at: int,
    score: u32,
    first_id: int,
)
    requires
        window_sections(s, st, m, river_at, score, first_id),
    ensures
        st.len() == s.len() + 1,
        m.len() == s.len() + 1,
        1 <= river_at < s.len(),
        joined_lanes(s, river_at).len() >= 3,
        joined_lanes(s, s.len() as int).len() >= LANE_COUNT,
{
    reveal(window_sections);
}

/// What the sections a first board draws say of section `j`.
proof fn lemma_window_step(
    s: Seq<(Seq<LaneView>, (SectionKind, Seq<u8>))>,
    st: Seq<u64>,
    m: Seq<Seq<(SectionKind, Seq<u8>)>>,
    river_at: int,
    score: u32,
    first_id: int,
    j: int,
)
    requires
        window_sections(s, st, m, river_at, score, first_id),
        0 <= j < s.len(),
    ensures
        m[j + 1] == keep_recent(m[j].push(s[j].1)),
        j < river_at ==> forest_section_searched(
            s[j],
            st[j],
            st[j + 1],
            score,
            last_forest_kind(m[j]),
            m[j],
            (first_id + j) as usize,
        ),
        1 <= j < river_at ==> joined_lanes(s, j).len() < 3,
        j == river_at ==> river_section_searched(s[j], st[j], st[j + 1], m[j], (first_id + j) as usize),
        river_at < j ==> next_section_drawn(s[j], st[j], st[j + 1], score, m[j], (first_id + j) as usize),
        river_at < j ==> joined_lanes(s, j).len() < 7,
{
    reveal(window_sections);
    assert(s[j] == s[j]);
}

/// Two first-board draws from the same state agree on their sections up to
/// `k`, as long as both draw forest sections or both have drawn their river
/// section at `river_at`.
proof fn lemma_window_agree(
    s1: Seq<(Seq<LaneView>, (SectionKind, Seq<u8>))>,
    st1: Seq<u64>,
    m1: Seq<Seq<(SectionKind, Seq<u8>)>>,
    r1: int,
    s2: Seq<(Seq<LaneView>, (SectionKind, Seq<u8>))>,
    st2: Seq<u64>,
    m2: Seq<Seq<(SectionKind, Seq<u8>)>>,
    r2: int,
    score: u32,
    first_id: int,
    k: int,
)
    requires
        window_sections(s1, st1, m1, r1, score, first_id),
        window_sections(s2, st2, m2, r2, score, first_id),
        st1[0] == st2[0],
        m1[0] == m2[0],
        0 <= k <= s1.len(),
        k <= s2.len(),
        k <= r1 && k <= r2 || r1 == r2,
    ensures
        forall|i: int| 0 <= i <= k ==> st1[i] == st2[i] && m1[i] == m2[i],
        forall|i: int| 0 <= i < k ==> s1[i] == s2[i],
    decreases k,
{
    if k > 0 {
        lemma_window_agree(s1, st1, m1, r1, s2, st2, m2, r2, score, first_id, k - 1);
        let j = k - 1;
        let id = (first_id + j) as usize;
        lemma_window_step(s1, st1, m1, r1, score, first_id, j);
        lemma_window_step(s2, st2, m2, r2, score, first_id, j);
        if j < r1 && j < r2 {
            lemma_forest_search_same(s1[j], s2[j], st1[j], st1[j + 1], st2[j + 1], score, last_forest_kind(m1[j]), m1[j], id);
        } else if j == r1 {
            lemma_river_search_same(s1[j], s2[j], st1[j], st1[j + 1], st2[j + 1], m1[j], id);
        } else {
            lemma_next_section_same(s1[j], s2[j], st1[j], st1[j + 1], st2[j + 1], score, m1[j], id);
        }
    }
}

/// A first board drawn twice from the same generator state, remembered
/// signatures, score and first section id comes out the same, with the
/// same queue, the same number of sections, and leaves the same state.
pub proof fn lemma_window_same(
    b1: Seq<LaneView>,
    q1: Seq<LaneView>,
    e1: u64,
    me1: Seq<(SectionKind, Seq<u8>)>,
    c1: nat,
    b2: Seq<LaneView>,
    q2: Seq<LaneView>,
    e2: u64,
    me2: Seq<(SectionKind, Seq<u8>)>,
    c2: nat,
    start: u64,
    memory: Seq<(SectionKind, Seq<u8>)>,
    score: u32,
    first_id: int,
)
    requires
        window_drawn(b1, q1, start, e1, memory, me1, score, first_id, c1),
        window_drawn(b2, q2, start, e2, memory, me2, score, first_id, c2),
    ensures
        b1 == b2,
        q1 == q2,
        e1 == e2,
        me1 == me2,
        c1 == c2,
{
    reveal(window_drawn);
    let (s1, st1, m1, r1) = choose|
        sections: Seq<(Seq<LaneView>, (SectionKind, Seq<u8>))>,
        states: Seq<u64>,
        memories: Seq<Seq<(SectionKind, Seq<u8>)>>,
        river_at: int,
    |
        #[trigger] window_sections(sections, states, memories, river_at, score, first_id) && sections.len() == c1
            && states[0] == start && states[c1 as int] == e1 && memories[0] == memory && memories[c1 as int] == me1
            && b1 == joined_lanes(sections, c1 as int).take(LANE_COUNT as int).reverse() && q1 == joined_lanes(
            sections,
            c1 as int,
        ).skip(LANE_COUNT as int);
    let (s2, st2, m2, r2) = choose|
        sections: Seq<(Seq<LaneView>, (SectionKind, Seq<u8>))>,
        states: Seq<u64>,
        memories: Seq<Seq<(SectionKind, Seq<u8>)>>,
        river_at: int,
    |
        #[trigger] window_sections(sections, states, memories, river_at, score, first_id) && sections.len() == c2
            && states[0] == start && states[c2 as int] == e2 && memories[0] == memory && memories[c2 as int] == me2
            && b2 == joined_lanes(sections, c2 as int).take(LANE_COUNT as int).reverse() && q2 == joined_lanes(
            sections,
            c2 as int,
        ).skip(LANE_COUNT as int);
    lemma_window_shape(s1, st1, m1, r1, score, first_id);
    lemma_window_shape(s2, st2, m2, r2, score, first_id);
    let r = if r1 < r2 {
        r1
    } else {
        r2
    };
    lemma_window_agree(s1, st1, m1, r1, s2, st2, m2, r2, score, first_id, r);
    lemma_joined_same(s1, s2, r);
    if r1 < r2 {
        lemma_window_step(s2, st2, m2, r2, score, first_id, r1);
        assert(false);
    }
    if r2 < r1 {
        lemma_window_step(s1, st1, m1, r1, score, first_id, r2);
        assert(false);
    }
    let n = if c1 < c2 {
        c1 as int
    } else {
        c2 as int
    };
    lemma_window_agree(s1, st1, m1, r1, s2, st2, m2, r2, score, first_id, n);
    lemma_joined_same(s1, s2, n);
    if c1 < c2 {
        lemma_window_step(s2, st2, m2, r2, score, first_id, c1 as int);
        assert(false);
    }
    if c2 < c1 {
        lemma_window_step(s1, st1, m1, r1, score, first_id, c2 as int);
        assert(false);
    }
}

/// Two emergency boards drawn lane by lane from the same generator states
/// agree lane by lane up to `k`.
proof fn lemma_emergency_agree(
    b1: Seq<LaneView>,
    s1: Seq<u64>,
    b2: Seq<LaneView>,
    s2: Seq<u64>,
    column: usize,
    id: int,
    k: int,
)
    requires
        s1.len() == LANE_COUNT + 1,
        s2.len() == LANE_COUNT + 1,
        s1[0] == s2[0],
        0 <= k <= LANE_COUNT,
        forall|i: int|
            0 <= i < LANE_COUNT ==> forest_lane_drawn(
                #[trigger] b1[i],
                s1[i],
                s1[i + 1],
                (3 + i % 2) as nat,
                Some(column),
            ) && forest_lane(b1[i], id as usize, ForestSectionKind::Grove, (3 + i % 2) as nat, Some(column)),
        forall|i: int|
            0 <= i < LANE_COUNT ==> forest_lane_drawn(
                #[trigger] b2[i],
                s2[i],
                s2[i + 1],
                (3 + i % 2) as nat,
                Some(column),
            ) && forest_lane(b2[i], id as usize, ForestSectionKind::Grove, (3 + i % 2) as nat, Some(column)),
    ensures
        forall|i: int| 0 <= i <= k ==> s1[i] == s2[i],
        forall|i: int| 0 <= i < k ==> b1[i] == b2[i],
    decreases k,
{
    if k > 0 {
        lemma_emergency_agree(b1, s1, b2, s2, column, id, k - 1);
        let j = k - 1;
        assert(forest_lane_drawn(b1[j], s1[j], s1[j + 1], (3 + j % 2) as nat, Some(column)));
        assert(forest_lane_drawn(b2[j], s2[j], s2[j + 1], (3 + j % 2) as nat, Some(column)));
        lemma_forest_lane_same(
            b1[j],
            b2[j],
            s1[j],
            s1[j + 1],
            s2[j + 1],
            (3 + j % 2) as nat,
            Some(column),
            id as usize,
            ForestSectionKind::Grove,
        );
    }
}

/// The emergency board drawn twice from the same generator state, for the
/// same column and section id, is the same board and leaves the same state.
pub proof fn lemma_emergency_same(
    b1: Seq<LaneView>,
    b2: Seq<LaneView>,
    start: u64,
    e1: u64,
    e2: u64,
    column: usize,
    id: int,
)
    requires
        emergency_drawn(b1, start, e1, column, id),
        emergency_drawn(b2, start, e2, column, id),
    ensures
        b1 == b2,
        e1 == e2,
{
    let s1 = choose|states: Seq<u64>|
        #[trigger] state_chain(states, LANE_COUNT as nat, start, e1) && forall|i: int|
            0 <= i < LANE_COUNT ==> forest_lane_drawn(
                #[trigger] b1[i],
                states[i],
                states[i + 1],
                (3 + i % 2) as nat,
                Some(column),
            ) && forest_lane(b1[i], id as usize, ForestSectionKind::Grove, (3 + i % 2) as nat, Some(column));
    let s2 = choose|states: Seq<u64>|
        #[trigger] state_chain(states, LANE_COUNT as nat, start, e2) && forall|i: int|
            0 <= i < LANE_COUNT ==> forest_lane_drawn(
                #[trigger] b2[i],
                states[i],
                states[i + 1],
                (3 + i % 2) as nat,
                Some(column),
            ) && forest_lane(b2[i], id as usize, ForestSectionKind::Grove, (3 + i % 2) as nat, Some(column));
    lemma_emergency_agree(b1, s1, b2, s2, column, id, LANE_COUNT as int);
    assert(b1 =~= b2);
}

/// Two first-board searches from the same generator state and section id
/// agree on their attempts up to `k`.
proof fn lemma_attempts_agree(
    a1: Seq<(Seq<LaneView>, Seq<LaneView>, Seq<(SectionKind, Seq<u8>)>)>,
    st1: Seq<u64>,
    ids1: Seq<int>,
    a2: Seq<(Seq<LaneView>, Seq<LaneView>, Seq<(SectionKind, Seq<u8>)>)>,
    st2: Seq<u64>,
    ids2: Seq<int>,
    score: u32,
    k: int,
)
    requires
        board_attempts(a1, st1, ids1, score),
        board_attempts(a2, st2, ids2, score),
        st1[0] == st2[0],
        ids1[0] == ids2[0],
        0 <= k <= a1.len(),
        k <= a2.len(),
    ensures
        forall|i: int| 0 <= i <= k ==> st1[i] == st2[i] && ids1[i] == ids2[i],
        forall|i: int| 0 <= i < k ==> a1[i] == a2[i],
    decreases k,
{
    if k > 0 {
        lemma_attempts_agree(a1, st1, ids1, a2, st2, ids2, score, k - 1);
        let j = k - 1;
        assert(attempt_drawn(a1[j], st1[j], st1[j + 1], score, ids1[j], ids1[j + 1]));
        assert(attempt_drawn(a2[j], st2[j], st2[j + 1], score, ids2[j], ids2[j + 1]));
        lemma_window_same(
            a1[j].0,
            a1[j].1,
            st1[j + 1],
            a1[j].2,
            (ids1[j + 1] - ids1[j]) as nat,
            a2[j].0,
            a2[j].1,
            st2[j + 1],
            a2[j].2,
            (ids2[j + 1] - ids2[j]) as nat,
            st1[j],
            Seq::empty(),
            score,
            ids1[j],
        );
    }
}

/// The first board is a function of the seed: searched twice from the same
/// generator state, for the same score, player position and first section
/// id, it gives the same board, the same queued lanes and remembered
/// signatures, and leaves the generator and the next section id in the
/// same place.
pub proof fn lemma_first_board_same(
    b1: Seq<LaneView>,
    q1: Seq<LaneView>,
    m1: Seq<(SectionKind, Seq<u8>)>,
    e1: u64,
    n1: int,
    b2: Seq<LaneView>,
    q2: Seq<LaneView>,
    m2: Seq<(SectionKind, Seq<u8>)>,
    e2: u64,
    n2: int,
    start: u64,
    score: u32,
    lane: int,
    column: usize,
    first_id: int,
)
    requires
        first_board_drawn(b1, q1, m1, start, e1, score, lane, column, first_id, n1),
        first_board_drawn(b2, q2, m2, start, e2, score, lane, column, first_id, n2),
    ensures
        b1 == b2,
        q1 == q2,
        m1 == m2,
        e1 == e2,
        n1 == n2,
{
    reveal(first_board_drawn);
    let (a1, st1, ids1) = choose|
        attempts: Seq<(Seq<LaneView>, Seq<LaneView>, Seq<(SectionKind, Seq<u8>)>)>,
        states: Seq<u64>,
        ids: Seq<int>,
    |
        #[trigger] board_attempts(attempts, states, ids, score) && states[0] == start && ids[0] == first_id && ({
            let n = attempts.len();
            &&& 1 <= n <= BOARD_ATTEMPTS
            &&& forall|j: int| 0 <= j < n - 1 ==> !board_kept_at_once((#[trigger] attempts[j]).0, lane, column as int)
            &&& if board_kept_at_once(attempts[n - 1].0, lane, column as int) {
                b1 == attempts[n - 1].0 && q1 == attempts[n - 1].1 && m1 == attempts[n - 1].2 && e1
                    == states[n as int] && n1 == ids[n as int]
            } else {
                &&& n == BOARD_ATTEMPTS
                &&& forall|b: int|
                    best_attempt(attempts, lane, column as int, b) ==> b1 == attempts[b].0 && q1
                        == attempts[b].1 && m1 == attempts[b].2 && e1 == states[n as int] && n1
                        == ids[n as int]
                &&& (forall|b: int| !best_attempt(attempts, lane, column as int, b)) ==> q1 == attempts[n
                    - 1].1 && m1 == attempts[n - 1].2 && n1 == ids[n as int] + 1 && emergency_drawn(
                    b1,
                    states[n as int],
                    e1,
                    column,
                    ids[n as int],
                )
            }
        });
    let (a2, st2, ids2) = choose|
        attempts: Seq<(Seq<LaneView>, Seq<LaneView>, Seq<(SectionKind, Seq<u8>)>)>,
        states: Seq<u64>,
        ids: Seq<int>,
    |
        #[trigger] board_attempts(attempts, states, ids, score) && states[0] == start && ids[0] == first_id && ({
            let n = attempts.len();
            &&& 1 <= n <= BOARD_ATTEMPTS
            &&& forall|j: int| 0 <= j < n - 1 ==> !board_kept_at_once((#[trigger] attempts[j]).0, lane, column as int)
            &&& if board_kept_at_once(attempts[n - 1].0, lane, column as int) {
                b2 == attempts[n - 1].0 && q2 == attempts[n - 1].1 && m2 == attempts[n - 1].2 && e2
                    == states[n as int] && n2 == ids[n as int]
            } else {
                &&& n == BOARD_ATTEMPTS
                &&& forall|b: int|
                    best_attempt(attempts, lane, column as int, b) ==> b2 == attempts[b].0 && q2
                        == attempts[b].1 && m2 == attempts[b].2 && e2 == states[n as int] && n2
                        == ids[n as int]
                &&& (forall|b: int| !best_attempt(attempts, lane, column as int, b)) ==> q2 == attempts[n
                    - 1].1 && m2 == attempts[n - 1].2 && n2 == ids[n as int] + 1 && emergency_drawn(
                    b2,
                    states[n as int],
                    e2,
                    column,
                    ids[n as int],
                )
            }
        });
    let len1 = a1.len() as int;
    let len2 = a2.len() as int;
    let k = if len1 < len2 {
        len1
    } else {
        len2
    };
    lemma_attempts_agree(a1, st1, ids1, a2, st2, ids2, score, k);
    if len1 < len2 {
        assert(!board_kept_at_once(a2[len1 - 1].0, lane, column as int));
        assert(false);
    }
    if len2 < len1 {
        assert(!board_kept_at_once(a1[len2 - 1].0, lane, column as int));
        assert(false);
    }
    assert(a1 =~= a2);
    let n = len1;
    if !board_kept_at_once(a1[n - 1].0, lane, column as int) {
        if exists|b: int| best_attempt(a1, lane, column as int, b) {
            let b = choose|b: int| best_attempt(a1, lane, column as int, b);
            assert(best_attempt(a2, lane, column as int, b));
        } else {
            lemma_emergency_same(b1, b2, st1[n], e1, e2, column, ids1[n]);
        }
    }
}

/// The lane taken from the same queue, generator state, remembered
/// signatures and next section id is the same, with the same state after.
proof fn lemma_pick_same(
    queue: Seq<LaneView>,
    state: u64,
    memory: Seq<(SectionKind, Seq<u8>)>,
    next_id: int,
    p1: (LaneView, Seq<LaneView>, u64, Seq<(SectionKind, Seq<u8>)>, int),
    p2: (LaneView, Seq<LaneView>, u64, Seq<(SectionKind, Seq<u8>)>, int),
    score: u32,
)
    requires
        lane_pick(queue, state, memory, next_id, p1, score),
        lane_pick(queue, state, memory, next_id, p2, score),
    ensures
        p1 == p2,
{
    if queue.len() == 0 {
        let c1 = choose|section: (Seq<LaneView>, (SectionKind, Seq<u8>))|
            #[trigger] next_section_drawn(section, state, p1.2, score, memory, next_id as usize) && p1.3
                == keep_recent(memory.push(section.1)) && p1.4 == next_id + 1 && section.0.len() > 0 && p1.0
                == section.0[0] && p1.1 == section.0.skip(1);
        let c2 = choose|section: (Seq<LaneView>, (SectionKind, Seq<u8>))|
            #[trigger] next_section_drawn(section, state, p2.2, score, memory, next_id as usize) && p2.3
                == keep_recent(memory.push(section.1)) && p2.4 == next_id + 1 && section.0.len() > 0 && p2.0
                == section.0[0] && p2.1 == section.0.skip(1);
        lemma_next_section_same(c1, c2, state, p1.2, p2.2, score, memory, next_id as usize);
    }
}

/// Two searches for the next lane from the same start agree on their steps
/// up to `k`.
proof fn lemma_lane_search_agree(
    p1: Seq<(LaneView, Seq<LaneView>, u64, Seq<(SectionKind, Seq<u8>)>, int)>,
    q1: Seq<Seq<LaneView>>,
    st1: Seq<u64>,
    m1: Seq<Seq<(SectionKind, Seq<u8>)>>,
    ids1: Seq<int>,
    p2: Seq<(LaneView, Seq<LaneView>, u64, Seq<(SectionKind, Seq<u8>)>, int)>,
    q2: Seq<Seq<LaneView>>,
    st2: Seq<u64>,
    m2: Seq<Seq<(SectionKind, Seq<u8>)>>,
    ids2: Seq<int>,
    board: Seq<LaneView>,
    lane: int,
    column: int,
    score: u32,
    k: int,
)
    requires
        lane_search(p1, q1, st1, m1, ids1, board, lane, column, score),
        lane_search(p2, q2, st2, m2, ids2, board, lane, column, score),
        q1[0] == q2[0],
        st1[0] == st2[0],
        m1[0] == m2[0],
        ids1[0] == ids2[0],
        0 <= k <= p1.len(),
        k <= p2.len(),
    ensures
        forall|i: int| 0 <= i <= k ==> q1[i] == q2[i] && st1[i] == st2[i] && m1[i] == m2[i] && ids1[i] == ids2[i],
        forall|i: int| 0 <= i < k ==> p1[i] == p2[i],
    decreases k,
{
    if k > 0 {
        lemma_lane_search_agree(p1, q1, st1, m1, ids1, p2, q2, st2, m2, ids2, board, lane, column, score, k - 1);
        let j = k - 1;
        assert(lane_pick(q1[j], st1[j], m1[j], ids1[j], p1[j], score));
        assert(lane_pick(q2[j], st2[j], m2[j], ids2[j], p2[j], score));
        lemma_pick_same(q1[j], st1[j], m1[j], ids1[j], p1[j], p2[j], score);
    }
}

/// The next lane is a function of the game's state: searched twice from the
/// same queue, generator state, remembered signatures and next section id,
/// in front of the same lanes with the player moving to the same tile and
/// the same score, it is the same lane and leaves the same state.
pub proof fn lemma_next_lane_same(
    l1: LaneView,
    l2: LaneView,
    start: (Seq<LaneView>, u64, Seq<(SectionKind, Seq<u8>)>, int),
    end1: (Seq<LaneView>, u64, Seq<(SectionKind, Seq<u8>)>, int),
    end2: (Seq<LaneView>, u64, Seq<(SectionKind, Seq<u8>)>, int),
    board: Seq<LaneView>,
    lane_index: int,
    column: int,
    score: u32,
)
    requires
        next_lane_drawn(l1, start, end1, board, lane_index, column, score),
        next_lane_drawn(l2, start, end2, board, lane_index, column, score),
    ensures
        l1 == l2,
        end1 == end2,
{
    reveal(next_lane_drawn);
    let (p1, q1, st1, m1, ids1) = choose|
        picks: Seq<(LaneView, Seq<LaneView>, u64, Seq<(SectionKind, Seq<u8>)>, int)>,
        queues: Seq<Seq<LaneView>>,
        states: Seq<u64>,
        memories: Seq<Seq<(SectionKind, Seq<u8>)>>,
        ids: Seq<int>,
    |
        #[trigger] lane_search(picks, queues, states, memories, ids, board, lane_index, column, score) && queues[0]
            == start.0 && states[0] == start.1 && memories[0] == start.2 && ids[0] == start.3 && ({
            let n = picks.len();
            ||| (n < SECTION_ATTEMPTS && exists|last: (LaneView, Seq<LaneView>, u64, Seq<(SectionKind, Seq<u8>)>, int)|
                lane_pick(queues[n as int], states[n as int], memories[n as int], ids[n as int], last, score)
                    && lane_fits(last.0, board, lane_index, column) && l1 == last.0 && end1 == (
                    last.1,
                    last.2,
                    last.3,
                    last.4,
                ))
            ||| (n == SECTION_ATTEMPTS && forest_lane(l1, ids[n as int] as usize, ForestSectionKind::Clearing, 0, None)
                && forest_lane_drawn(l1, states[n as int], end1.1, 0, None) && end1.0 == queues[n as int] && end1.2
                == memories[n as int] && end1.3 == ids[n as int] + 1)
        });
    let (p2, q2, st2, m2, ids2) = choose|
        picks: Seq<(LaneView, Seq<LaneView>, u64, Seq<(SectionKind, Seq<u8>)>, int)>,
        queues: Seq<Seq<LaneView>>,
        states: Seq<u64>,
        memories: Seq<Seq<(SectionKind, Seq<u8>)>>,
        ids: Seq<int>,
    |
        #[trigger] lane_search(picks, queues, states, memories, ids, board, lane_index, column, score) && queues[0]
            == start.0 && states[0] == start.1 && memories[0] == start.2 && ids[0] == start.3 && ({
            let n = picks.len();
            ||| (n < SECTION_ATTEMPTS && exists|last: (LaneView, Seq<LaneView>, u64, Seq<(SectionKind, Seq<u8>)>, int)|
                lane_pick(queues[n as int], states[n as int], memories[n as int], ids[n as int], last, score)
                    && lane_fits(last.0, board, lane_index, column) && l2 == last.0 && end2 == (
                    last.1,
                    last.2,
                    last.3,
                    last.4,
                ))
            ||| (n == SECTION_ATTEMPTS && forest_lane(l2, ids[n as int] as usize, ForestSectionKind::Clearing, 0, None)
                && forest_lane_drawn(l2, states[n as int], end2.1, 0, None) && end2.0 == queues[n as int] && end2.2
                == memories[n as int] && end2.3 == ids[n as int] + 1)
        });
    let n1 = p1.len() as int;
    let n2 = p2.len() as int;
    let k = if n1 < n2 {
        n1
    } else {
        n2
    };
    lemma_lane_search_agree(p1, q1, st1, m1, ids1, p2, q2, st2, m2, ids2, board, lane_index, column, score, k);
    if n1 < n2 {
        let last = choose|last: (LaneView, Seq<LaneView>, u64, Seq<(SectionKind, Seq<u8>)>, int)|
            lane_pick(q1[n1], st1[n1], m1[n1], ids1[n1], last, score) && lane_fits(last.0, board, lane_index, column)
                && l1 == last.0 && end1 == (last.1, last.2, last.3, last.4);
        assert(lane_pick(q2[n1], st2[n1], m2[n1], ids2[n1], p2[n1], score));
        lemma_pick_same(q1[n1], st1[n1], m1[n1], ids1[n1], last, p2[n1], score);
        assert(false);
    } else if n2 < n1 {
        let last = choose|last: (LaneView, Seq<LaneView>, u64, Seq<(SectionKind, Seq<u8>)>, int)|
            lane_pick(q2[n2], st2[n2], m2[n2], ids2[n2], last, score) && lane_fits(last.0, board, lane_index, column)
                && l2 == last.0 && end2 == (last.1, last.2, last.3, last.4);
        assert(lane_pick(q1[n2], st1[n2], m1[n2], ids1[n2], p1[n2], score));
        lemma_pick_same(q2[n2], st2[n2], m2[n2], ids2[n2], last, p1[n2], score);
        assert(false);
    } else if n1 < SECTION_ATTEMPTS {
        let last1 = choose|last: (LaneView, Seq<LaneView>, u64, Seq<(SectionKind, Seq<u8>)>, int)|
            lane_pick(q1[n1], st1[n1], m1[n1], ids1[n1], last, score) && lane_fits(last.0, board, lane_index, column)
                && l1 == last.0 && end1 == (last.1, last.2, last.3, last.4);
        let last2 = choose|last: (LaneView, Seq<LaneView>, u64, Seq<(SectionKind, Seq<u8>)>, int)|
            lane_pick(q2[n1], st2[n1], m2[n1], ids2[n1], last, score) && lane_fits(last.0, board, lane_index, column)
                && l2 == last.0 && end2 == (last.1, last.2, last.3, last.4);
        lemma_pick_same(q1[n1], st1[n1], m1[n1], ids1[n1], last1, last2, score);
    } else {
        lemma_forest_lane_same(
            l1,
            l2,
            st1[n1],
            end1.1,
            end2.1,
            0,
            None,
            ids1[n1] as usize,
            ForestSectionKind::Clearing,
        );
    }
}

} // verus!
