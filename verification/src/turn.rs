//! Turns: the connectors between the lanes that meet at an intersection.

use vstd::prelude::*;
use slab::Slab;
use crate::arena::{lane_get, lane_keys, lane_slots};
use crate::ids::{IntersectionID, LaneID, NavNodeID};
use crate::lane::Lane;
use crate::traffic_control::{TrafficControl, TrafficModel, TurnPermission};

verus! {

/// A turn from the end of one lane to the start of another, across the
/// intersection at which both meet.
#[derive(Clone, Copy, Debug, PartialEq, Eq, Structural)]
pub struct Turn {
    /// The lane that arrives at the intersection.
    pub src: LaneID,
    /// The lane that leaves the intersection.
    pub dst: LaneID,
    /// The intersection that the turn crosses.
    pub parent: IntersectionID,
    /// The node of `src` at the intersection, where the turn begins.
    pub src_node: NavNodeID,
    /// The node of `dst` at the intersection, where the turn ends.
    pub dst_node: NavNodeID,
    /// The condition that the traffic control puts on the turn.
    pub permission: TurnPermission,
}

/// A turn from lane `a` to lane `b` exists at the intersection `at`: `a`
/// arrives there and `b` leaves from there, they belong to different roads
/// and carry the same kind of traffic, each has a node bound at the
/// intersection, and the policy permits the turn.
pub open spec fn turn_allowed(
    lanes: Map<usize, Lane>,
    policy: TrafficModel,
    at: IntersectionID,
    a: LaneID,
    b: LaneID,
) -> bool {
    &&& lanes.dom().contains(a.0)
    &&& lanes.dom().contains(b.0)
    &&& lanes[a.0].travel_dst() == at
    &&& lanes[b.0].travel_src() == at
    &&& lanes[a.0].parent != lanes[b.0].parent
    &&& lanes[a.0].lane_type.compatible(lanes[b.0].lane_type)
    &&& lanes[a.0].node_at(at).is_some()
    &&& lanes[b.0].node_at(at).is_some()
    &&& policy.permission(a, b).is_some()
}

/// The turn from lane `a` to lane `b` at the intersection `at`.
pub open spec fn turn_between(
    lanes: Map<usize, Lane>,
    policy: TrafficModel,
    at: IntersectionID,
    a: LaneID,
    b: LaneID,
) -> Turn {
    Turn {
        src: a,
        dst: b,
        parent: at,
        src_node: lanes[a.0].node_at(at).unwrap(),
        dst_node: lanes[b.0].node_at(at).unwrap(),
        permission: policy.permission(a, b).unwrap(),
    }
}

/// The order of turns: by arriving lane, then by leaving lane.
pub open spec fn turn_before(s: Turn, t: Turn) -> bool {
    s.src.0 < t.src.0 || (s.src.0 == t.src.0 && s.dst.0 < t.dst.0)
}

/// Each turn of the list comes before all that follow it.
pub open spec fn turns_sorted(turns: Seq<Turn>) -> bool {
    forall|j: int, k: int| 0 <= j < k < turns.len() ==> turn_before(turns[j], turns[k])
}

/// The list holds a turn from `a` to `b`.
pub open spec fn has_turn(turns: Seq<Turn>, a: LaneID, b: LaneID) -> bool {
    exists|k: int| 0 <= k < turns.len() && #[trigger] turns[k].src == a && turns[k].dst == b
}

/// The entry of the list at `k` is a turn that exists at `at`.
pub open spec fn turn_valid(
    lanes: Map<usize, Lane>,
    policy: TrafficModel,
    at: IntersectionID,
    turn: Turn,
) -> bool {
    &&& turn_allowed(lanes, policy, at, turn.src, turn.dst)
    &&& turn == turn_between(lanes, policy, at, turn.src, turn.dst)
}

/// `turns` is the list of the turns at the intersection `at`: it holds every
/// turn that exists there, nothing else, each once, in order.
pub open spec fn is_turn_list(
    lanes: Map<usize, Lane>,
    policy: TrafficModel,
    at: IntersectionID,
    turns: Seq<Turn>,
) -> bool {
    &&& forall|k: int| 0 <= k < turns.len() ==> turn_valid(lanes, policy, at, #[trigger] turns[k])
    &&& turns_sorted(turns)
    &&& forall|a: LaneID, b: LaneID| #[trigger]
        turn_allowed(lanes, policy, at, a, b) ==> has_turn(turns, a, b)
}

/// Two sorted lists that hold the same turns are the same list.
pub proof fn lemma_sorted_turns_equal(s: Seq<Turn>, t: Seq<Turn>)
    requires
        turns_sorted(s),
        turns_sorted(t),
        forall|k: int| 0 <= k < s.len() ==> t.contains(#[trigger] s[k]),
        forall|k: int| 0 <= k < t.len() ==> s.contains(#[trigger] t[k]),
    ensures
        s == t,
    decreases s.len(),
{
    if s.len() == 0 {
        if t.len() > 0 {
            assert(s.contains(t[0]));
        }
        assert(s =~= t);
    } else {
        let sl = s.last();
        assert(t.contains(s[s.len() - 1]));
        let j = choose|j: int| 0 <= j < t.len() && t[j] == sl;
        let tl = t.last();
        assert(s.contains(t[t.len() - 1]));
        let i = choose|i: int| 0 <= i < s.len() && s[i] == tl;
        if j < t.len() - 1 {
            assert(turn_before(t[j], t[t.len() - 1]));
            if i < s.len() - 1 {
                assert(turn_before(s[i], s[s.len() - 1]));
            }
            assert(false);
        }
        assert(sl == tl);
        let s0 = s.drop_last();
        let t0 = t.drop_last();
        assert forall|k: int| 0 <= k < s0.len() implies t0.contains(#[trigger] s0[k]) by {
            assert(s0[k] == s[k]);
            assert(t.contains(s[k]));
            let q = choose|q: int| 0 <= q < t.len() && t[q] == s[k];
            assert(turn_before(s[k], s[s.len() - 1]));
            assert(q < t.len() - 1);
            assert(t0[q] == s0[k]);
        }
        assert forall|k: int| 0 <= k < t0.len() implies s0.contains(#[trigger] t0[k]) by {
            assert(t0[k] == t[k]);
            assert(s.contains(t[k]));
            let q = choose|q: int| 0 <= q < s.len() && s[q] == t[k];
            assert(turn_before(t[k], t[t.len() - 1]));
            assert(q < s.len() - 1);
            assert(s0[q] == t0[k]);
        }
        lemma_sorted_turns_equal(s0, t0);
        assert(s =~= s0.push(sl));
        assert(t =~= t0.push(tl));
    }
}

/// An intersection has one list of turns: two lists that both are the list
/// of the turns at `at`, for the same lanes and the same policy, are equal.
pub proof fn lemma_turn_list_unique(
    lanes: Map<usize, Lane>,
    policy: TrafficModel,
    at: IntersectionID,
    s: Seq<Turn>,
    t: Seq<Turn>,
)
    requires
        is_turn_list(lanes, policy, at, s),
        is_turn_list(lanes, policy, at, t),
    ensures
        s == t,
{
    assert forall|k: int| 0 <= k < s.len() implies t.contains(#[trigger] s[k]) by {
        assert(turn_valid(lanes, policy, at, s[k]));
        assert(has_turn(t, s[k].src, s[k].dst));
        let q = choose|q: int| 0 <= q < t.len() && #[trigger] t[q].src == s[k].src && t[q].dst
            == s[k].dst;
        assert(turn_valid(lanes, policy, at, t[q]));
    }
    assert forall|k: int| 0 <= k < t.len() implies s.contains(#[trigger] t[k]) by {
        assert(turn_valid(lanes, policy, at, t[k]));
        assert(has_turn(s, t[k].src, t[k].dst));
        let q = choose|q: int| 0 <= q < s.len() && #[trigger] s[q].src == t[k].src && s[q].dst
            == t[k].dst;
        assert(turn_valid(lanes, policy, at, s[q]));
    }
    lemma_sorted_turns_equal(s, t);
}

/// No turn of an intersection's list joins two lanes of one road, and none
/// is a turn that the policy does not permit.
pub proof fn lemma_turn_list_sound(
    lanes: Map<usize, Lane>,
    policy: TrafficModel,
    at: IntersectionID,
    turns: Seq<Turn>,
    k: int,
)
    requires
        is_turn_list(lanes, policy, at, turns),
        0 <= k < turns.len(),
    ensures
        lanes[turns[k].src.0].parent != lanes[turns[k].dst.0].parent,
        policy.permission(turns[k].src, turns[k].dst) == Some(turns[k].permission),
{
    assert(turn_valid(lanes, policy, at, turns[k]));
}

/// `x` is among the first `n` of `keys`.
pub open spec fn seen(keys: Seq<usize>, n: int, x: usize) -> bool {
    exists|p: int| 0 <= p < n && #[trigger] keys[p] == x
}

/// The pair of lanes comes before the place that the generator has reached:
/// the arriving lane is among the first `ia` slots, or it is the slot at
/// `ia` and the leaving lane is among the first `ib` slots.
pub open spec fn pair_done(keys: Seq<usize>, ia: int, ib: int, a: LaneID, b: LaneID) -> bool {
    seen(keys, ia, a.0) || (0 <= ia < keys.len() && a.0 == keys[ia] && seen(keys, ib, b.0))
}

/// `turns` is the list of the turns at `at` among the pairs of lanes that
/// the generator has passed.
pub open spec fn is_turn_list_upto(
    lanes: Map<usize, Lane>,
    policy: TrafficModel,
    at: IntersectionID,
    turns: Seq<Turn>,
    keys: Seq<usize>,
    ia: int,
    ib: int,
) -> bool {
    &&& forall|k: int|
        0 <= k < turns.len() ==> turn_valid(lanes, policy, at, #[trigger] turns[k]) && pair_done(
            keys,
            ia,
            ib,
            turns[k].src,
            turns[k].dst,
        )
    &&& turns_sorted(turns)
    &&& forall|a: LaneID, b: LaneID| #[trigger]
        turn_allowed(lanes, policy, at, a, b) && pair_done(keys, ia, ib, a, b) ==> has_turn(
            turns,
            a,
            b,
        )
}

/// The slots are in rising order and are those that hold a lane.
pub open spec fn keys_of(keys: Seq<usize>, lanes: Map<usize, Lane>) -> bool {
    &&& forall|p: int, q: int| 0 <= p < q < keys.len() ==> keys[p] < keys[q]
    &&& forall|k: usize| lanes.dom().contains(k) <==> keys.contains(k)
}

proof fn lemma_seen_step(keys: Seq<usize>, n: int, x: usize)
    requires
        0 <= n < keys.len(),
    ensures
        seen(keys, n + 1, x) <==> seen(keys, n, x) || keys[n] == x,
        !seen(keys, 0, x),
{
    if seen(keys, n + 1, x) {
        let p = choose|p: int| 0 <= p < n + 1 && #[trigger] keys[p] == x;
        if p < n {
            assert(seen(keys, n, x));
        }
    }
    if seen(keys, n, x) {
        let p = choose|p: int| 0 <= p < n && #[trigger] keys[p] == x;
        assert(0 <= p < n + 1 && keys[p] == x);
    }
    if keys[n] == x {
        assert(0 <= n < n + 1 && keys[n] == x);
    }
}

/// The generator passes the pair at `(ia, ib)`: where the pair is a turn,
/// the turn is appended.
proof fn lemma_pass_pair(
    lanes: Map<usize, Lane>,
    policy: TrafficModel,
    at: IntersectionID,
    turns: Seq<Turn>,
    keys: Seq<usize>,
    ia: int,
    ib: int,
)
    requires
        keys_of(keys, lanes),
        0 <= ia < keys.len(),
        0 <= ib < keys.len(),
        is_turn_list_upto(lanes, policy, at, turns, keys, ia, ib),
    ensures
        ({
            let a = LaneID(keys[ia]);
            let b = LaneID(keys[ib]);
            if turn_allowed(lanes, policy, at, a, b) {
                is_turn_list_upto(
                    lanes,
                    policy,
                    at,
                    turns.push(turn_between(lanes, policy, at, a, b)),
                    keys,
                    ia,
                    ib + 1,
                )
            } else {
                is_turn_list_upto(lanes, policy, at, turns, keys, ia, ib + 1)
            }
        }),
{
    let a = LaneID(keys[ia]);
    let b = LaneID(keys[ib]);
    let t = turn_between(lanes, policy, at, a, b);
    let next = if turn_allowed(lanes, policy, at, a, b) {
        turns.push(t)
    } else {
        turns
    };
    assert forall|k: int| 0 <= k < next.len() implies turn_valid(
        lanes,
        policy,
        at,
        #[trigger] next[k],
    ) && pair_done(keys, ia, ib + 1, next[k].src, next[k].dst) by {
        if k < turns.len() {
            assert(next[k] == turns[k]);
            assert(pair_done(keys, ia, ib, turns[k].src, turns[k].dst));
            lemma_seen_step(keys, ib, turns[k].dst.0);
        } else {
            lemma_seen_step(keys, ib, b.0);
        }
    }
    assert forall|j: int, k: int| 0 <= j < k < next.len() implies turn_before(
        next[j],
        next[k],
    ) by {
        if k < turns.len() {
            assert(turn_before(turns[j], turns[k]));
        } else {
            assert(next[j] == turns[j]);
            assert(pair_done(keys, ia, ib, turns[j].src, turns[j].dst));
            if seen(keys, ia, turns[j].src.0) {
                let p = choose|p: int| 0 <= p < ia && #[trigger] keys[p] == turns[j].src.0;
                assert(keys[p] < keys[ia]);
            } else {
                let p = choose|p: int| 0 <= p < ib && #[trigger] keys[p] == turns[j].dst.0;
                assert(keys[p] < keys[ib]);
            }
        }
    }
    assert forall|x: LaneID, y: LaneID| #[trigger]
        turn_allowed(lanes, policy, at, x, y) && pair_done(
            keys,
            ia,
            ib + 1,
            x,
            y,
        ) implies has_turn(next, x, y) by {
        lemma_seen_step(keys, ib, y.0);
        if pair_done(keys, ia, ib, x, y) {
            assert(has_turn(turns, x, y));
            let k = choose|k: int|
                0 <= k < turns.len() && #[trigger] turns[k].src == x && turns[k].dst == y;
            assert(next[k].src == x && next[k].dst == y);
        } else {
            assert(x == a && y == b);
            assert(next[turns.len() as int].src == x && next[turns.len() as int].dst == y);
        }
    }
}

/// The generator passes the slot at `ia`, having passed all its pairs or
/// having found that the lane does not arrive at `at`.
proof fn lemma_pass_lane(
    lanes: Map<usize, Lane>,
    policy: TrafficModel,
    at: IntersectionID,
    turns: Seq<Turn>,
    keys: Seq<usize>,
    ia: int,
    ib: int,
)
    requires
        keys_of(keys, lanes),
        0 <= ia < keys.len(),
        is_turn_list_upto(lanes, policy, at, turns, keys, ia, ib),
        ib == keys.len() || (ib == 0 && lanes[keys[ia]].travel_dst() != at),
    ensures
        is_turn_list_upto(lanes, policy, at, turns, keys, ia + 1, 0),
{
    assert forall|k: int| 0 <= k < turns.len() implies turn_valid(
        lanes,
        policy,
        at,
        #[trigger] turns[k],
    ) && pair_done(keys, ia + 1, 0, turns[k].src, turns[k].dst) by {
        assert(pair_done(keys, ia, ib, turns[k].src, turns[k].dst));
        lemma_seen_step(keys, ia, turns[k].src.0);
    }
    assert forall|x: LaneID, y: LaneID| #[trigger]
        turn_allowed(lanes, policy, at, x, y) && pair_done(keys, ia + 1, 0, x, y) implies has_turn(
        turns,
        x,
        y,
    ) by {
        lemma_seen_step(keys, ia, x.0);
        if ia + 1 < keys.len() {
            lemma_seen_step(keys, ia + 1, y.0);
        }
        assert(seen(keys, ia + 1, x.0));
        if !seen(keys, ia, x.0) {
            assert(x.0 == keys[ia]);
            assert(ib == keys.len());
            assert(keys.contains(y.0));
            let p = choose|p: int| 0 <= p < keys.len() && keys[p] == y.0;
            assert(seen(keys, ib, y.0));
        }
        assert(pair_done(keys, ia, ib, x, y));
    }
}

/// The turn from the lane in slot `ka` to the lane in slot `kb` at `at`, if
/// there is one.
fn candidate_turn(
    lanes: &Slab<Lane>,
    policy: &TrafficControl,
    at: IntersectionID,
    ka: usize,
    kb: usize,
) -> (turn: Option<Turn>)
    requires
        lane_slots(*lanes).dom().contains(ka),
        lane_slots(*lanes).dom().contains(kb),
    ensures
        turn == (if turn_allowed(lane_slots(*lanes), policy@, at, LaneID(ka), LaneID(kb)) {
            Some(turn_between(lane_slots(*lanes), policy@, at, LaneID(ka), LaneID(kb)))
        } else {
            None
        }),
{
    let a = *lane_get(lanes, ka).unwrap();
    let b = *lane_get(lanes, kb).unwrap();
    if a.destination() != at || b.origin() != at || a.parent == b.parent
        || !a.lane_type.connects_to(b.lane_type) {
        return None;
    }
    let src_node = match a.try_get_inter_node(at) {
        Ok(n) => n,
        Err(_) => {
            return None;
        },
    };
    let dst_node = match b.try_get_inter_node(at) {
        Ok(n) => n,
        Err(_) => {
            return None;
        },
    };
    match policy.permission(LaneID(ka), LaneID(kb)) {
        Some(permission) => Some(
            Turn { src: LaneID(ka), dst: LaneID(kb), parent: at, src_node, dst_node, permission },
        ),
        None => None,
    }
}

/// Generates the turns at the intersection `at`: one for every pair of an
/// arriving and a leaving lane between which a turn exists, ordered by
/// arriving lane and then by leaving lane.
///
/// The list depends on the lanes and the policy alone, so generating it
/// again gives the same list.
pub fn turns_at(lanes: &Slab<Lane>, policy: &TrafficControl, at: IntersectionID) -> (turns: Vec<
    Turn,
>)
    ensures
        is_turn_list(lane_slots(*lanes), policy@, at, turns@),
{
    let keys = lane_keys(lanes);
    let ghost held = lane_slots(*lanes);
    let mut turns: Vec<Turn> = Vec::new();
    let mut ia: usize = 0;
    while ia < keys.len()
        invariant
            ia <= keys.len(),
            held == lane_slots(*lanes),
            keys_of(keys@, held),
            is_turn_list_upto(held, policy@, at, turns@, keys@, ia as int, 0),
        decreases keys.len() - ia,
    {
        let ka = keys[ia];
        assert(keys@.contains(ka));
        let a = *lane_get(lanes, ka).unwrap();
        let mut ib: usize = 0;
        if a.destination() == at {
            while ib < keys.len()
                invariant
                    ia < keys.len(),
                    ib <= keys.len(),
                    ka == keys@[ia as int],
                    held == lane_slots(*lanes),
                    held.dom().contains(ka),
                    keys_of(keys@, held),
                    is_turn_list_upto(held, policy@, at, turns@, keys@, ia as int, ib as int),
                decreases keys.len() - ib,
            {
                let kb = keys[ib];
                assert(keys@.contains(kb));
                proof {
                    lemma_pass_pair(held, policy@, at, turns@, keys@, ia as int, ib as int);
                }
                match candidate_turn(lanes, policy, at, ka, kb) {
                    Some(turn) => {
                        turns.push(turn);
                    },
                    None => {},
                }
                ib += 1;
            }
        }
        proof {
            lemma_pass_lane(held, policy@, at, turns@, keys@, ia as int, ib as int);
        }
        ia += 1;
    }
    proof {
        assert forall|a: LaneID, b: LaneID| #[trigger]
            turn_allowed(held, policy@, at, a, b) implies has_turn(turns@, a, b) by {
            assert(keys@.contains(a.0));
            let p = choose|p: int| 0 <= p < keys@.len() && keys@[p] == a.0;
            assert(seen(keys@, ia as int, a.0));
            assert(pair_done(keys@, ia as int, 0, a, b));
        }
    }
    turns
}

} // verus!
