//! Shortest routes between two coordinates of a street map, by best-first
//! search: the node that leaves the frontier next is the one for which the
//! distance covered plus the estimate of the distance left is least.
use crate::error::{DeliveryFailure, RouteError};
use crate::frontier::{leaves_next, Node, Frontier};
use crate::geo::{GeoCoord, GeoCoordView, StreetSegment, StreetSegmentView};
use crate::route::{
    is_route, lemma_route_length_nonnegative, lemma_route_length_prepend,
    lemma_route_length_split, lemma_route_prepend, lemma_route_rest, route_length, stop_at,
};
use crate::street_map::{
    fitted, lemma_model_at, lemma_position, position, segment_views, StreetMap, StreetMapView,
};
use vstd::prelude::*;

verus! {

/// What the search has found out so far, node by node: whether the node was
/// reached, the length of the shortest way to it that is known, and the
/// segment by which that way arrives. The stamp of a node is the time at
/// which its cost was last lowered.
pub(crate) struct MarksView {
    pub seen: Seq<bool>,
    pub cost: Seq<u64>,
    pub prev_node: Seq<usize>,
    pub prev_seg: Seq<usize>,
    pub stamp: Seq<nat>,
    pub clock: nat,
}

/// The marks of a search as the machine holds them.
pub(crate) struct Marks {
    pub seen: Vec<bool>,
    pub cost: Vec<u64>,
    pub prev_node: Vec<usize>,
    pub prev_seg: Vec<usize>,
    pub stamp: Ghost<Seq<nat>>,
    pub clock: Ghost<nat>,
}

impl View for Marks {
    type V = MarksView;

    closed spec fn view(&self) -> MarksView {
        MarksView {
            seen: self.seen@,
            cost: self.cost@,
            prev_node: self.prev_node@,
            prev_seg: self.prev_seg@,
            stamp: self.stamp@,
            clock: self.clock@,
        }
    }
}

pub(crate) open spec fn degree(sm: &StreetMap, i: int) -> int {
    sm.streets[i].len() as int
}

pub(crate) open spec fn arc_len(sm: &StreetMap, i: int, k: int) -> int {
    sm.streets[i][k].length as int
}

pub(crate) open spec fn arc_to(sm: &StreetMap, i: int, k: int) -> int {
    sm.targets[i][k] as int
}

/// What an unreached node counts for in the measure of work left.
pub(crate) open spec fn beyond_reach() -> nat {
    (u64::MAX + 1) as nat
}

/// The measure of work left: it falls whenever a node is reached or its
/// cost is lowered.
pub(crate) open spec fn potential(seen: Seq<bool>, cost: Seq<u64>) -> nat
    decreases seen.len(),
{
    if seen.len() == 0 || cost.len() != seen.len() {
        0
    } else {
        potential(seen.drop_last(), cost.drop_last()) + if seen.last() {
            cost.last() as nat
        } else {
            beyond_reach()
        }
    }
}

pub(crate) proof fn lemma_potential_falls(seen: Seq<bool>, cost: Seq<u64>, to: int, cand: u64)
    requires
        seen.len() == cost.len(),
        0 <= to < seen.len(),
        !seen[to] || cand < cost[to],
    ensures
        potential(seen.update(to, true), cost.update(to, cand)) < potential(seen, cost),
    decreases seen.len(),
{
    let seen2 = seen.update(to, true);
    let cost2 = cost.update(to, cand);
    if to == seen.len() - 1 {
        assert(seen2.drop_last() =~= seen.drop_last());
        assert(cost2.drop_last() =~= cost.drop_last());
    } else {
        lemma_potential_falls(seen.drop_last(), cost.drop_last(), to, cand);
        assert(seen2.drop_last() =~= seen.drop_last().update(to, true));
        assert(cost2.drop_last() =~= cost.drop_last().update(to, cand));
    }
}

impl MarksView {
    pub(crate) open spec fn sized(self, n: int) -> bool {
        &&& self.seen.len() == n
        &&& self.cost.len() == n
        &&& self.prev_node.len() == n
        &&& self.prev_seg.len() == n
        &&& self.stamp.len() == n
    }

    /// The marks after a shorter way to `to` was found: over segment `seg`
    /// of node `from`, `cand` long.
    pub(crate) open spec fn improved(self, to: int, from: usize, seg: usize, cand: u64) -> MarksView {
        MarksView {
            seen: self.seen.update(to, true),
            cost: self.cost.update(to, cand),
            prev_node: self.prev_node.update(to, from),
            prev_seg: self.prev_seg.update(to, seg),
            stamp: self.stamp.update(to, self.clock),
            clock: self.clock + 1,
        }
    }

    /// The way to `m` arrives over a segment of the map that ends at `m`,
    /// from a node that was reached, and is at least as long as the way to
    /// that node and the segment together.
    pub(crate) open spec fn linked_at(self, sm: &StreetMap, m: int) -> bool {
        let p = self.prev_node[m] as int;
        let k = self.prev_seg[m] as int;
        &&& 0 <= p < self.seen.len()
        &&& self.seen[p]
        &&& 0 <= k < degree(sm, p)
        &&& arc_to(sm, p, k) == m
        &&& self.cost[p] + arc_len(sm, p, k) <= self.cost[m]
        &&& (self.cost[p] < self.cost[m] || self.stamp[p] < self.stamp[m])
    }

    pub(crate) open spec fn tree(self, sm: &StreetMap, s: int) -> bool {
        forall|m: int|
            0 <= m < self.seen.len() && #[trigger] self.seen[m] && m != s ==> self.linked_at(sm, m)
    }

    pub(crate) open spec fn stamped(self) -> bool {
        forall|m: int| 0 <= m < self.stamp.len() ==> #[trigger] self.stamp[m] < self.clock
    }

    /// Segment `k` of node `m` cannot shorten the way to its end.
    pub(crate) open spec fn relaxed_arc(self, sm: &StreetMap, m: int, k: int) -> bool {
        let to = arc_to(sm, m, k);
        self.cost[m] + arc_len(sm, m, k) <= u64::MAX ==> self.seen[to] && self.cost[to]
            <= self.cost[m] + arc_len(sm, m, k)
    }

    pub(crate) open spec fn relaxed(self, sm: &StreetMap, m: int, upto: int) -> bool {
        forall|k: int| 0 <= k < upto ==> #[trigger] self.relaxed_arc(sm, m, k)
    }
}

/// Node `m` waits in the frontier with a priority of `bound` at most.
pub(crate) open spec fn queued(f: Seq<Node>, m: int, bound: int) -> bool {
    exists|idx: int| 0 <= idx < f.len() && (#[trigger] f[idx]).coord == m && f[idx].cost <= bound
}

pub(crate) open spec fn entries_ok(f: Seq<Node>, mv: MarksView) -> bool {
    forall|idx: int|
        0 <= idx < f.len() ==> {
            &&& (#[trigger] f[idx]).coord < mv.seen.len()
            &&& mv.seen[f[idx].coord as int]
            &&& f[idx].cost >= mv.cost[f[idx].coord as int]
        }
}

/// Every reached node but `except` either waits in the frontier, with its
/// cost and estimate for priority or less, or has been expanded at its cost.
pub(crate) open spec fn covered(
    sm: &StreetMap,
    mv: MarksView,
    h: Seq<u64>,
    f: Seq<Node>,
    except: int,
) -> bool {
    forall|m: int|
        0 <= m < mv.seen.len() && #[trigger] mv.seen[m] && m != except ==> queued(
            f,
            m,
            mv.cost[m] + h[m],
        ) || mv.relaxed(sm, m, degree(sm, m))
}

pub(crate) open spec fn end_waits(mv: MarksView, f: Seq<Node>, e: int) -> bool {
    mv.seen[e] ==> exists|idx: int| 0 <= idx < f.len() && (#[trigger] f[idx]).coord == e
}

/// What holds of the search while node `cur` is being expanded and its
/// first `k` segments are done; with `cur` out of range, what holds between
/// two expansions.
pub(crate) open spec fn searching(
    sm: &StreetMap,
    mv: MarksView,
    h: Seq<u64>,
    f: Seq<Node>,
    s: int,
    e: int,
    cur: int,
    k: int,
) -> bool {
    let n = sm.coords.len() as int;
    &&& fitted(sm.coords@, sm.streets@, sm.targets@)
    &&& 0 <= s < n
    &&& 0 <= e < n
    &&& h.len() == n
    &&& mv.sized(n)
    &&& mv.seen[s]
    &&& mv.cost[s] == 0
    &&& mv.tree(sm, s)
    &&& mv.stamped()
    &&& entries_ok(f, mv)
    &&& covered(sm, mv, h, f, cur)
    &&& end_waits(mv, f, e)
    &&& 0 <= cur < n ==> mv.seen[cur] && 0 <= k <= degree(sm, cur) && mv.relaxed(sm, cur, k)
}

/// Taking an entry out of the frontier opens the expansion of its node.
pub(crate) proof fn lemma_popped(
    sm: &StreetMap,
    mv: MarksView,
    h: Seq<u64>,
    f: Seq<Node>,
    s: int,
    e: int,
    i: int,
)
    requires
        searching(sm, mv, h, f, s, e, -1, 0),
        0 <= i < f.len(),
        f[i].coord != e,
    ensures
        searching(sm, mv, h, f.remove(i), s, e, f[i].coord as int, 0),
{
    let cur = f[i].coord as int;
    let f2 = f.remove(i);
    assert forall|m: int| 0 <= m < mv.seen.len() && #[trigger] mv.seen[m] && m != cur implies queued(
        f2,
        m,
        mv.cost[m] + h[m],
    ) || mv.relaxed(sm, m, degree(sm, m)) by {
        if queued(f, m, mv.cost[m] + h[m]) {
            let idx = choose|idx: int|
                0 <= idx < f.len() && (#[trigger] f[idx]).coord == m && f[idx].cost
                    <= mv.cost[m] + h[m];
            if idx < i {
                assert(f2[idx] == f[idx]);
            } else {
                assert(f2[idx - 1] == f[idx]);
            }
        }
    }
    assert forall|idx: int| 0 <= idx < f2.len() implies {
        &&& (#[trigger] f2[idx]).coord < mv.seen.len()
        &&& mv.seen[f2[idx].coord as int]
        &&& f2[idx].cost >= mv.cost[f2[idx].coord as int]
    } by {
        if idx < i {
            assert(f2[idx] == f[idx]);
        } else {
            assert(f2[idx] == f[idx + 1]);
        }
    }
    if mv.seen[e] {
        let idx = choose|idx: int| 0 <= idx < f.len() && (#[trigger] f[idx]).coord == e;
        if idx < i {
            assert(f2[idx] == f[idx]);
        } else {
            assert(f2[idx - 1] == f[idx]);
        }
    }
}

/// A shorter way to the end of segment `k` of `cur` is recorded and the end
/// queued: the search goes on with segment `k + 1`.
pub(crate) proof fn lemma_improved(
    sm: &StreetMap,
    mv: MarksView,
    h: Seq<u64>,
    f: Seq<Node>,
    s: int,
    e: int,
    cur: usize,
    k: usize,
    cand: u64,
    priority: u64,
)
    requires
        searching(sm, mv, h, f, s, e, cur as int, k as int),
        0 <= cur < sm.coords.len(),
        k < degree(sm, cur as int),
        cand == mv.cost[cur as int] + arc_len(sm, cur as int, k as int),
        !mv.seen[arc_to(sm, cur as int, k as int)] || cand < mv.cost[arc_to(
            sm,
            cur as int,
            k as int,
        )],
        cand <= priority <= cand + h[arc_to(sm, cur as int, k as int)],
    ensures
        searching(
            sm,
            mv.improved(arc_to(sm, cur as int, k as int), cur, k, cand),
            h,
            f.push(Node { coord: arc_to(sm, cur as int, k as int) as usize, cost: priority }),
            s,
            e,
            cur as int,
            k + 1,
        ),
{
    let n = sm.coords.len() as int;
    let to = arc_to(sm, cur as int, k as int);
    let mv2 = mv.improved(to, cur, k, cand);
    let entry = Node { coord: to as usize, cost: priority };
    let f2 = f.push(entry);
    assert(sm.streets[cur as int][k as int]@.start == sm.coords[cur as int]@);
    assert(0 <= to < n);
    assert(to != cur as int);
    assert(to != s);
    assert(mv2.sized(n));
    assert forall|m: int| 0 <= m < n && #[trigger] mv2.seen[m] && m != s implies mv2.linked_at(
        sm,
        m,
    ) by {
        if m != to {
            assert(mv.seen[m]);
            assert(mv.linked_at(sm, m));
            let p = mv.prev_node[m] as int;
            if p == to {
                assert(mv.seen[to]);
            }
        } else {
            assert(mv.stamp[cur as int] < mv.clock);
        }
    }
    assert forall|m: int| 0 <= m < mv2.stamp.len() implies #[trigger] mv2.stamp[m]
        < mv2.clock by {
        if m != to {
            assert(mv.stamp[m] < mv.clock);
        }
    }
    assert forall|idx: int| 0 <= idx < f2.len() implies {
        &&& (#[trigger] f2[idx]).coord < mv2.seen.len()
        &&& mv2.seen[f2[idx].coord as int]
        &&& f2[idx].cost >= mv2.cost[f2[idx].coord as int]
    } by {
        if idx < f.len() {
            assert(f2[idx] == f[idx]);
        }
    }
    assert forall|m: int, j: int|
        0 <= m < n && m != to && 0 <= j < degree(sm, m) && mv.relaxed_arc(
            sm,
            m,
            j,
        ) implies #[trigger] mv2.relaxed_arc(sm, m, j) by {}
    assert forall|m: int|
        0 <= m < n && #[trigger] mv2.seen[m] && m != cur as int implies queued(
        f2,
        m,
        mv2.cost[m] + h[m],
    ) || mv2.relaxed(sm, m, degree(sm, m)) by {
        if m == to {
            assert(f2[f.len() as int] == entry);
        } else {
            assert(mv.seen[m]);
            if queued(f, m, mv.cost[m] + h[m]) {
                let idx = choose|idx: int|
                    0 <= idx < f.len() && (#[trigger] f[idx]).coord == m && f[idx].cost
                        <= mv.cost[m] + h[m];
                assert(f2[idx] == f[idx]);
            } else {
                assert(mv.relaxed(sm, m, degree(sm, m)));
                assert forall|j: int| 0 <= j < degree(sm, m) implies #[trigger] mv2.relaxed_arc(
                    sm,
                    m,
                    j,
                ) by {
                    assert(mv.relaxed_arc(sm, m, j));
                }
            }
        }
    }
    assert forall|j: int| 0 <= j < k + 1 implies #[trigger] mv2.relaxed_arc(sm, cur as int, j) by {
        if j < k {
            assert(mv.relaxed_arc(sm, cur as int, j));
        }
    }
    if mv2.seen[e] {
        if to == e {
            assert(f2[f.len() as int] == entry);
        } else {
            let idx = choose|idx: int| 0 <= idx < f.len() && (#[trigger] f[idx]).coord == e;
            assert(f2[idx] == f[idx]);
        }
    }
}

/// Whether no estimate in `h` exceeds the length of a route from its
/// coordinate to `end`.
pub(crate) open spec fn admissible(sm: &StreetMap, h: Seq<u64>, end: GeoCoordView) -> bool {
    forall|i: int, p: Seq<StreetSegmentView>|
        0 <= i < sm.coords.len() && #[trigger] is_route(sm@, p, sm.coords[i]@, end) ==> h[i]
            <= route_length(p)
}

/// Whether the stop of route `p` before its segment `i` was reached by a
/// way no longer than `p` up to there.
pub(crate) open spec fn reached_along(
    sm: &StreetMap,
    mv: MarksView,
    p: Seq<StreetSegmentView>,
    end: GeoCoordView,
    i: int,
) -> bool {
    let node = position(sm.coords@, stop_at(p, end, i));
    &&& 0 <= node < sm.coords.len()
    &&& sm.coords[node]@ == stop_at(p, end, i)
    &&& mv.seen[node]
    &&& mv.cost[node] <= route_length(p.subrange(0, i))
}

/// Whether an entry waits in the frontier, whose priority is no more than
/// `bound` where the estimates are admissible.
pub(crate) open spec fn waits_within(
    sm: &StreetMap,
    h: Seq<u64>,
    f: Seq<Node>,
    end: GeoCoordView,
    bound: int,
) -> bool {
    exists|idx: int|
        0 <= idx < f.len() && (admissible(sm, h, end) ==> (#[trigger] f[idx]).cost <= bound)
}

/// From a stop of route `p` that was reached within the length of `p` up
/// to there, the next stop was reached so too, unless an entry waits.
pub(crate) proof fn lemma_bounds_step(
    sm: &StreetMap,
    mv: MarksView,
    h: Seq<u64>,
    f: Seq<Node>,
    start: GeoCoordView,
    e: int,
    p: Seq<StreetSegmentView>,
    i: int,
)
    requires
        fitted(sm.coords@, sm.streets@, sm.targets@),
        0 <= e < sm.coords.len(),
        h.len() == sm.coords.len(),
        mv.sized(sm.coords.len() as int),
        covered(sm, mv, h, f, -1),
        is_route(sm@, p, start, sm.coords[e]@),
        route_length(p) <= u64::MAX,
        0 <= i < p.len(),
        reached_along(sm, mv, p, sm.coords[e]@, i),
    ensures
        reached_along(sm, mv, p, sm.coords[e]@, i + 1) || waits_within(
            sm,
            h,
            f,
            sm.coords[e]@,
            route_length(p),
        ),
{
    let end = sm.coords[e]@;
    let n = p.len() as int;
    let a = position(sm.coords@, stop_at(p, end, i));
    let x = p[i];
    assert(sm.coords[a]@ == x.start);
    lemma_route_length_split(p, i);
    lemma_route_length_split(p, i + 1);
    lemma_route_length_nonnegative(p.subrange(i + 1, n));
    assert(p.subrange(0, i + 1).drop_last() =~= p.subrange(0, i));
    assert(p.subrange(0, i + 1).last() == x);
    assert(route_length(p.subrange(0, i + 1)) == route_length(p.subrange(0, i)) + x.length);
    if queued(f, a, mv.cost[a] + h[a]) {
        let idx = choose|idx: int|
            0 <= idx < f.len() && (#[trigger] f[idx]).coord == a && f[idx].cost <= mv.cost[a]
                + h[a];
        if admissible(sm, h, end) {
            lemma_route_rest(sm@, p, start, end, i);
            assert(is_route(sm@, p.subrange(i, n), sm.coords[a]@, end));
            assert(h[a] <= route_length(p.subrange(i, n)));
        }
        assert(admissible(sm, h, end) ==> f[idx].cost <= route_length(p));
    } else {
        assert(mv.relaxed(sm, a, degree(sm, a)));
        lemma_model_at(sm.coords@, sm.streets@, a);
        assert(sm@[x.start].contains(x));
        let k = choose|k: int|
            0 <= k < segment_views(sm.streets[a]@).len() && segment_views(sm.streets[a]@)[k]
                == x;
        assert(sm.streets[a][k]@ == x);
        assert(mv.relaxed_arc(sm, a, k));
        let to = arc_to(sm, a, k);
        assert(sm.coords[to]@ == x.end);
        lemma_position(sm.coords@, to);
        assert(stop_at(p, end, i + 1) == x.end);
    }
}

/// Between two expansions, along any route `p` from start to end: either
/// the way known to the stop before segment `i` is no longer than `p` up to
/// there, or an entry waits in the frontier, whose priority is no more than
/// the length of `p` where the estimates are admissible.
pub(crate) proof fn lemma_frontier_bounds(
    sm: &StreetMap,
    mv: MarksView,
    h: Seq<u64>,
    f: Seq<Node>,
    s: int,
    e: int,
    p: Seq<StreetSegmentView>,
    i: int,
)
    requires
        fitted(sm.coords@, sm.streets@, sm.targets@),
        0 <= s < sm.coords.len(),
        0 <= e < sm.coords.len(),
        h.len() == sm.coords.len(),
        mv.sized(sm.coords.len() as int),
        mv.seen[s],
        mv.cost[s] == 0,
        covered(sm, mv, h, f, -1),
        is_route(sm@, p, sm.coords[s]@, sm.coords[e]@),
        route_length(p) <= u64::MAX,
        0 <= i <= p.len(),
    ensures
        reached_along(sm, mv, p, sm.coords[e]@, i) || waits_within(
            sm,
            h,
            f,
            sm.coords[e]@,
            route_length(p),
        ),
    decreases i,
{
    if i == 0 {
        lemma_position(sm.coords@, s);
        assert(p.subrange(0, 0) =~= Seq::empty());
        assert(stop_at(p, sm.coords[e]@, 0) == sm.coords[s]@);
    } else {
        lemma_frontier_bounds(sm, mv, h, f, s, e, p, i - 1);
        if reached_along(sm, mv, p, sm.coords[e]@, i - 1) {
            lemma_bounds_step(sm, mv, h, f, sm.coords[s]@, e, p, i - 1);
        }
    }
}

/// One step back along the way to `cur`: the segment by which it arrives,
/// put before a route from `cur`, makes a route from the node before.
proof fn lemma_step_back(
    sm: &StreetMap,
    mv: MarksView,
    s: int,
    cur: int,
    end: GeoCoordView,
    tail: Seq<StreetSegmentView>,
)
    requires
        fitted(sm.coords@, sm.streets@, sm.targets@),
        mv.sized(sm.coords.len() as int),
        0 <= cur < sm.coords.len(),
        mv.seen[cur],
        cur != s,
        mv.tree(sm, s),
        is_route(sm@, tail, sm.coords[cur]@, end),
    ensures
        ({
            let p = mv.prev_node[cur] as int;
            let k = mv.prev_seg[cur] as int;
            let x = sm.streets[p][k]@;
            &&& mv.linked_at(sm, cur)
            &&& is_route(sm@, seq![x] + tail, sm.coords[p]@, end)
            &&& route_length(seq![x] + tail) == x.length + route_length(tail)
        }),
{
    assert(mv.linked_at(sm, cur));
    let p = mv.prev_node[cur] as int;
    let k = mv.prev_seg[cur] as int;
    let x = sm.streets[p][k]@;
    assert(x.start == sm.coords[p]@);
    assert(x.end == sm.coords[cur]@);
    lemma_model_at(sm.coords@, sm.streets@, p);
    assert(segment_views(sm.streets[p]@)[k] == x);
    assert(sm@[x.start].contains(x));
    lemma_route_prepend(sm@, x, tail, end);
    lemma_route_length_prepend(x, tail);
}

/// The route that the marks hold from node `s` to node `e`, and its length.
fn reconstruct(sm: &StreetMap, marks: &Marks, s: usize, e: usize) -> (r: (Vec<StreetSegment>, u64))
    requires
        fitted(sm.coords@, sm.streets@, sm.targets@),
        s < sm.coords.len(),
        e < sm.coords.len(),
        marks@.sized(sm.coords.len() as int),
        marks@.seen[s as int],
        marks@.cost[s as int] == 0,
        marks@.tree(sm, s as int),
        marks@.seen[e as int],
    ensures
        is_route(sm@, segment_views(r.0@), sm.coords[s as int]@, sm.coords[e as int]@),
        r.1 == route_length(segment_views(r.0@)),
        r.1 <= marks@.cost[e as int],
{
    let mut backwards: Vec<StreetSegment> = Vec::new();
    let mut total: u64 = 0;
    let mut cur: usize = e;
    let ghost mut tail: Seq<StreetSegmentView> = Seq::empty();
    proof {
        lemma_model_at(sm.coords@, sm.streets@, e as int);
        lemma_model_at(sm.coords@, sm.streets@, s as int);
    }
    while cur != s
        invariant
            fitted(sm.coords@, sm.streets@, sm.targets@),
            s < sm.coords.len(),
            e < sm.coords.len(),
            cur < sm.coords.len(),
            marks@.sized(sm.coords.len() as int),
            marks@.tree(sm, s as int),
            marks@.seen[cur as int],
            is_route(sm@, tail, sm.coords[cur as int]@, sm.coords[e as int]@),
            total == route_length(tail),
            total + marks@.cost[cur as int] <= marks@.cost[e as int],
            tail.len() == backwards.len(),
            forall|j: int| 0 <= j < tail.len() ==> tail[j] == (#[trigger] backwards[tail.len() - 1 - j])@,
        decreases marks@.cost[cur as int], marks@.stamp[cur as int],
    {
        proof {
            lemma_step_back(sm, marks@, s as int, cur as int, sm.coords[e as int]@, tail);
        }
        let p: usize = marks.prev_node[cur];
        let k: usize = marks.prev_seg[cur];
        let seg = &sm.streets[p][k];
        total = total + seg.length;
        let ghost before = backwards@;
        backwards.push(seg.clone());
        proof {
            let longer = seq![seg@] + tail;
            assert forall|j: int| 0 <= j < longer.len() implies longer[j] == (
            #[trigger] backwards[longer.len() - 1 - j])@ by {
                if j > 0 {
                    assert(longer[j] == tail[j - 1]);
                    assert(tail[j - 1] == before[tail.len() - 1 - (j - 1)]@);
                    assert(backwards[longer.len() - 1 - j] == before[tail.len() - j]);
                } else {
                    assert(backwards[longer.len() - 1]@ == seg@);
                }
            }
            tail = longer;
        }
        cur = p;
    }
    let mut route: Vec<StreetSegment> = Vec::new();
    let mut j: usize = backwards.len();
    while j > 0
        invariant
            j <= backwards.len(),
            tail.len() == backwards.len(),
            route.len() == backwards.len() - j,
            forall|a: int| 0 <= a < tail.len() ==> tail[a] == (#[trigger] backwards[tail.len() - 1 - a])@,
            forall|a: int| 0 <= a < route.len() ==> (#[trigger] route[a])@ == tail[a],
        decreases j,
    {
        j -= 1;
        route.push(backwards[j].clone());
        proof {
            let a = route.len() - 1;
            assert(tail[a] == backwards[tail.len() - 1 - a]@);
        }
    }
    assert(segment_views(route@) =~= tail);
    (route, total)
}

/// Whether `h` holds, for every node that was reached, an answer of
/// `estimate` for the way from it to `end`, and zero for every other node.
pub(crate) open spec fn asked<F: Fn(&GeoCoord, &GeoCoord) -> u64>(
    sm: &StreetMap,
    mv: MarksView,
    h: Seq<u64>,
    estimate: &F,
    end: &GeoCoord,
) -> bool {
    forall|m: int|
        0 <= m < sm.coords.len() ==> if mv.seen[m] {
            estimate.ensures((&sm.coords[m], end), #[trigger] h[m])
        } else {
            h[m] == 0
        }
}

/// Answers of an estimate that never overestimates are admissible.
pub(crate) proof fn lemma_asked_admissible<F: Fn(&GeoCoord, &GeoCoord) -> u64>(
    sm: &StreetMap,
    mv: MarksView,
    h: Seq<u64>,
    estimate: &F,
    end: &GeoCoord,
)
    requires
        h.len() == sm.coords.len(),
        mv.seen.len() == sm.coords.len(),
        asked(sm, mv, h, estimate, end),
        never_overestimates(sm@, estimate, end),
    ensures
        admissible(sm, h, end@),
{
    assert forall|i: int, p: Seq<StreetSegmentView>|
        0 <= i < sm.coords.len() && #[trigger] is_route(sm@, p, sm.coords[i]@, end@) implies h[i]
        <= route_length(p) by {
        lemma_route_length_nonnegative(p);
        if mv.seen[i] {
            assert(estimate.ensures((&sm.coords[i], end), h[i]));
        }
    }
}

/// The estimate of a node that was not reached plays no part in the search.
pub(crate) proof fn lemma_estimate_set(
    sm: &StreetMap,
    mv: MarksView,
    h: Seq<u64>,
    f: Seq<Node>,
    s: int,
    e: int,
    cur: int,
    k: int,
    to: int,
    v: u64,
)
    requires
        searching(sm, mv, h, f, s, e, cur, k),
        0 <= to < sm.coords.len(),
        !mv.seen[to],
    ensures
        searching(sm, mv, h.update(to, v), f, s, e, cur, k),
{
    let h2 = h.update(to, v);
    assert forall|m: int| 0 <= m < mv.seen.len() && #[trigger] mv.seen[m] && m != cur implies queued(
        f,
        m,
        mv.cost[m] + h2[m],
    ) || mv.relaxed(sm, m, degree(sm, m)) by {
        assert(h2[m] == h[m]);
    }
}

/// The shortest route from node `s` to node `e` that the search finds with
/// the help of `estimate`, and its length; nothing where no route is short
/// enough for its length to be counted.
fn search<F: Fn(&GeoCoord, &GeoCoord) -> u64>(
    sm: &StreetMap,
    s: usize,
    e: usize,
    end: &GeoCoord,
    estimate: &F,
) -> (r: Option<(Vec<StreetSegment>, u64)>)
    requires
        fitted(sm.coords@, sm.streets@, sm.targets@),
        s < sm.coords.len(),
        e < sm.coords.len(),
        end@ == sm.coords[e as int]@,
        forall|a: &GeoCoord, b: &GeoCoord| estimate.requires((a, b)),
    ensures
        match r {
            Some((route, d)) => {
                &&& is_route(sm@, segment_views(route@), sm.coords[s as int]@, sm.coords[e as int]@)
                &&& d == route_length(segment_views(route@))
                &&& never_overestimates(sm@, estimate, end) ==> forall|p: Seq<StreetSegmentView>|
                    #[trigger] is_route(sm@, p, sm.coords[s as int]@, sm.coords[e as int]@) ==> d
                        <= route_length(p)
            },
            None => forall|p: Seq<StreetSegmentView>|
                #[trigger] is_route(sm@, p, sm.coords[s as int]@, sm.coords[e as int]@)
                    ==> route_length(p) > u64::MAX,
        },
{
    let n: usize = sm.coords.len();
    let mut marks = Marks {
        seen: vec![false; n],
        cost: vec![0u64; n],
        prev_node: vec![0usize; n],
        prev_seg: vec![0usize; n],
        stamp: Ghost(Seq::new(n as nat, |i: int| 0nat)),
        clock: Ghost(1nat),
    };
    let mut h: Vec<u64> = vec![0u64; n];
    marks.seen.set(s, true);
    let from_start: u64 = estimate(&sm.coords[s], end);
    h.set(s, from_start);
    let mut frontier = Frontier::new();
    frontier.push(Node::from(s, from_start));
    proof {
        assert(frontier@[0].coord == s);
        assert(queued(frontier@, s as int, marks@.cost[s as int] + h[s as int]));
    }
    while !frontier.is_empty()
        invariant
            end@ == sm.coords[e as int]@,
            forall|a: &GeoCoord, b: &GeoCoord| estimate.requires((a, b)),
            asked(sm, marks@, h@, estimate, end),
            searching(sm, marks@, h@, frontier@, s as int, e as int, -1, 0),
        decreases potential(marks@.seen, marks@.cost), frontier@.len(),
    {
        let ghost f0 = frontier@;
        let ghost m0 = marks@;
        let popped = frontier.pop_min();
        let entry = match popped {
            Some(entry) => entry,
            None => { return None; },
        };
        let ghost at = choose|i: int|
            leaves_next(f0, i) && popped == Some(#[trigger] f0[i]) && frontier@ == f0.remove(i);
        let cur: usize = entry.coord;
        if cur == e {
            let (route, d) = reconstruct(sm, &marks, s, e);
            proof {
                if never_overestimates(sm@, estimate, end) {
                    lemma_asked_admissible(sm, m0, h@, estimate, end);
                }
                assert forall|p: Seq<StreetSegmentView>|
                    never_overestimates(sm@, estimate, end) && #[trigger] is_route(
                        sm@,
                        p,
                        sm.coords[s as int]@,
                        sm.coords[e as int]@,
                    ) implies d <= route_length(p) by {
                    if route_length(p) <= u64::MAX {
                        lemma_frontier_bounds(sm, m0, h@, f0, s as int, e as int, p, p.len() as int);
                        lemma_position(sm.coords@, e as int);
                        assert(p.subrange(0, p.len() as int) =~= p);
                        if !reached_along(sm, m0, p, sm.coords[e as int]@, p.len() as int) {
                            let idx = choose|idx: int|
                                0 <= idx < f0.len() && (admissible(sm, h@, sm.coords[e as int]@) ==> (
                                #[trigger] f0[idx]).cost <= route_length(p));
                            assert(f0[at].cost <= f0[idx].cost);
                        }
                    }
                }
            }
            return Some((route, d));
        }
        proof {
            lemma_popped(sm, m0, h@, f0, s as int, e as int, at);
        }
        let base: u64 = marks.cost[cur];
        let mut k: usize = 0;
        while k < sm.streets[cur].len()
            invariant
                end@ == sm.coords[e as int]@,
                forall|a: &GeoCoord, b: &GeoCoord| estimate.requires((a, b)),
                asked(sm, marks@, h@, estimate, end),
                searching(sm, marks@, h@, frontier@, s as int, e as int, cur as int, k as int),
                cur < sm.coords.len(),
                marks@.cost[cur as int] == base,
                potential(marks@.seen, marks@.cost) < potential(m0.seen, m0.cost) || (potential(
                    marks@.seen,
                    marks@.cost,
                ) == potential(m0.seen, m0.cost) && frontier@.len() == f0.len() - 1),
            decreases sm.streets[cur as int].len() - k,
        {
            let to: usize = sm.targets[cur][k];
            let length: u64 = sm.streets[cur][k].length;
            let ghost m1 = marks@;
            let ghost f1 = frontier@;
            assert(sm.streets[cur as int][k as int]@.start == sm.coords[cur as int]@);
            match base.checked_add(length) {
                Some(cand) => {
                    if !marks.seen[to] || cand < marks.cost[to] {
                        if !marks.seen[to] {
                            let ghost h1 = h@;
                            let left: u64 = estimate(&sm.coords[to], end);
                            h.set(to, left);
                            proof {
                                lemma_estimate_set(
                                    sm,
                                    m1,
                                    h1,
                                    f1,
                                    s as int,
                                    e as int,
                                    cur as int,
                                    k as int,
                                    to as int,
                                    left,
                                );
                            }
                        }
                        let priority: u64 = cand.saturating_add(h[to]);
                        proof {
                            lemma_improved(sm, m1, h@, f1, s as int, e as int, cur, k, cand, priority);
                            lemma_potential_falls(m1.seen, m1.cost, to as int, cand);
                        }
                        marks.seen.set(to, true);
                        marks.cost.set(to, cand);
                        marks.prev_node.set(to, cur);
                        marks.prev_seg.set(to, k);
                        marks.stamp = Ghost(marks.stamp@.update(to as int, marks.clock@));
                        marks.clock = Ghost(marks.clock@ + 1);
                        frontier.push(Node::from(to, priority));
                        assert(marks@ == m1.improved(to as int, cur, k, cand));
                    } else {
                        assert(m1.relaxed_arc(sm, cur as int, k as int));
                    }
                },
                None => {
                    assert(m1.relaxed_arc(sm, cur as int, k as int));
                },
            }
            k += 1;
        }
    }
    proof {
        assert forall|p: Seq<StreetSegmentView>| #[trigger]
            is_route(sm@, p, sm.coords[s as int]@, sm.coords[e as int]@) implies route_length(p)
            > u64::MAX by {
            if route_length(p) <= u64::MAX {
                lemma_frontier_bounds(sm, marks@, h@, frontier@, s as int, e as int, p, p.len() as int);
                lemma_position(sm.coords@, e as int);
            }
        }
    }
    None
}

/// Whether `estimate` never gives more for a coordinate than the length of
/// a route over `m` from that coordinate to `end`.
pub open spec fn never_overestimates<F: Fn(&GeoCoord, &GeoCoord) -> u64>(
    m: StreetMapView,
    estimate: &F,
    end: &GeoCoord,
) -> bool {
    forall|a: &GeoCoord, v: u64, p: Seq<StreetSegmentView>|
        #![trigger estimate.ensures((a, end), v), is_route(m, p, a@, end@)]
        estimate.ensures((a, end), v) && is_route(m, p, a@, end@) ==> v <= route_length(p)
}

/// An estimate that always answers zero never overestimates.
pub proof fn lemma_zero_never_overestimates<F: Fn(&GeoCoord, &GeoCoord) -> u64>(
    m: StreetMapView,
    estimate: &F,
    end: &GeoCoord,
)
    requires
        forall|a: &GeoCoord, v: u64| #[trigger] estimate.ensures((a, end), v) ==> v == 0,
    ensures
        never_overestimates(m, estimate, end),
{
    assert forall|a: &GeoCoord, v: u64, p: Seq<StreetSegmentView>|
        #![trigger estimate.ensures((a, end), v), is_route(m, p, a@, end@)]
        estimate.ensures((a, end), v) && is_route(m, p, a@, end@) implies v <= route_length(
        p,
    ) by {
        lemma_route_length_nonnegative(p);
    }
}

/// Whether some route over `m` leads from `start` to `end` whose length can
/// be counted.
pub open spec fn routable(m: StreetMapView, start: GeoCoordView, end: GeoCoordView) -> bool {
    exists|p: Seq<StreetSegmentView>| #[trigger]
        is_route(m, p, start, end) && route_length(p) <= u64::MAX
}

/// Whether no route over `m` from `start` to `end` is shorter than `d`.
pub open spec fn shortest(m: StreetMapView, start: GeoCoordView, end: GeoCoordView, d: int) -> bool {
    forall|p: Seq<StreetSegmentView>| #[trigger] is_route(m, p, start, end) ==> d <= route_length(p)
}

/// Finds routes over one street map.
pub struct PointToPointRouter<'a> {
    street_map: &'a StreetMap,
}

impl<'a> PointToPointRouter<'a> {
    /// The street map that this router searches.
    pub closed spec fn map(&self) -> &StreetMap {
        self.street_map
    }

    /// A router over the street map `sm`.
    pub fn from(sm: &'a StreetMap) -> (r: PointToPointRouter<'a>)
        ensures
            r.map() == sm,
    {
        PointToPointRouter { street_map: sm }
    }

    /// Whether `gc` is on the map that this router searches.
    pub fn on_map(&self, gc: &GeoCoord) -> (r: bool)
        ensures
            r == self.map()@.contains_key(gc@),
    {
        self.street_map.contains(gc)
    }

    /// A shortest route from `start` to `end` and its length, found without
    /// an estimate of the distance left.
    ///
    /// Fails with `BadCoord` where `start` or `end` is not on the map, and
    /// with `NoRoute` where both are but no route joins them whose length
    /// fits the distance type.
    pub fn shortest_route(&self, start: &GeoCoord, end: &GeoCoord) -> (r: Result<
        (Vec<StreetSegment>, u64),
        RouteError,
    >)
        ensures
            match r {
                Ok((route, d)) => {
                    &&& is_route(self.map()@, segment_views(route@), start@, end@)
                    &&& d == route_length(segment_views(route@))
                    &&& shortest(self.map()@, start@, end@, d as int)
                },
                Err(err) => {
                    &&& err.kind == DeliveryFailure::BadCoord <==> !self.map()@.contains_key(start@)
                        || !self.map()@.contains_key(end@)
                    &&& err.kind == DeliveryFailure::NoRoute <==> self.map()@.contains_key(start@)
                        && self.map()@.contains_key(end@)
                    &&& err.kind != DeliveryFailure::Other
                },
            },
            r.is_ok() <==> routable(self.map()@, start@, end@),
    {
        let nothing = |a: &GeoCoord, b: &GeoCoord| -> (v: u64)
            ensures
                v == 0,
            { 0u64 };
        proof {
            lemma_zero_never_overestimates(self.map()@, &nothing, end);
        }
        self.generate_route(start, end, &nothing)
    }

    /// A route from `start` to `end` and its length.
    ///
    /// `estimate(c, end)` is asked once for every coordinate `c` that the
    /// search reaches, and guides it. Whatever it answers, the result is a
    /// route and its length; where it never overestimates, no route is
    /// shorter.
    ///
    /// Fails with `BadCoord` where `start` or `end` is not on the map, and
    /// with `NoRoute` where both are but no route joins them whose length
    /// fits the distance type.
    pub fn generate_route<F: Fn(&GeoCoord, &GeoCoord) -> u64>(
        &self,
        start: &GeoCoord,
        end: &GeoCoord,
        estimate: &F,
    ) -> (r: Result<(Vec<StreetSegment>, u64), RouteError>)
        requires
            forall|a: &GeoCoord, b: &GeoCoord| estimate.requires((a, b)),
        ensures
            match r {
                Ok((route, d)) => {
                    &&& is_route(self.map()@, segment_views(route@), start@, end@)
                    &&& d == route_length(segment_views(route@))
                    &&& never_overestimates(self.map()@, estimate, end) ==> shortest(
                        self.map()@,
                        start@,
                        end@,
                        d as int,
                    )
                },
                Err(err) => {
                    &&& err.kind == DeliveryFailure::BadCoord <==> !self.map()@.contains_key(start@)
                        || !self.map()@.contains_key(end@)
                    &&& err.kind == DeliveryFailure::NoRoute <==> self.map()@.contains_key(start@)
                        && self.map()@.contains_key(end@)
                    &&& err.kind != DeliveryFailure::Other
                },
            },
            r.is_ok() <==> routable(self.map()@, start@, end@),
    {
        let sm = self.street_map;
        proof {
            use_type_invariant(sm);
        }
        let s = match sm.find(start) {
            Some(s) => s,
            None => {
                return Err(RouteError::new(DeliveryFailure::BadCoord));
            },
        };
        let e = match sm.find(end) {
            Some(e) => e,
            None => {
                return Err(RouteError::new(DeliveryFailure::BadCoord));
            },
        };
        proof {
            lemma_position(sm.coords@, s as int);
            lemma_position(sm.coords@, e as int);
        }
        match search(sm, s, e, end, estimate) {
            Some((route, d)) => Ok((route, d)),
            None => Err(RouteError::new(DeliveryFailure::NoRoute)),
        }
    }
}

} // verus!
