//! What a route is, and how long it is.
use crate::geo::{GeoCoordView, StreetSegmentView};
use crate::street_map::StreetMapView;
use vstd::prelude::*;

verus! {

/// Whether `route` leads from `start` to `end` over the map `m`: both are
/// on the map, every segment is one that the map files under its start,
/// each segment begins where the one before it ends, the first begins at
/// `start` and the last ends at `end`. The empty route leads from a
/// coordinate to itself.
pub open spec fn is_route(
    m: StreetMapView,
    route: Seq<StreetSegmentView>,
    start: GeoCoordView,
    end: GeoCoordView,
) -> bool {
    &&& m.contains_key(start)
    &&& m.contains_key(end)
    &&& forall|i: int|
        0 <= i < route.len() ==> m.contains_key((#[trigger] route[i]).start)
            && m[route[i].start].contains(route[i])
    &&& forall|i: int| 0 <= i < route.len() - 1 ==> (#[trigger] route[i]).end == route[i + 1].start
    &&& if route.len() == 0 {
        start == end
    } else {
        route[0].start == start && route[route.len() - 1].end == end
    }
}

/// The sum of the lengths of the segments of `route`.
pub open spec fn route_length(route: Seq<StreetSegmentView>) -> int
    decreases route.len(),
{
    if route.len() == 0 {
        0
    } else {
        route_length(route.drop_last()) + route.last().length
    }
}

/// A route hangs together: every segment begins where the one before it
/// ends, the first begins at the start and the last ends at the end.
pub proof fn lemma_route_contiguous(
    m: StreetMapView,
    route: Seq<StreetSegmentView>,
    start: GeoCoordView,
    end: GeoCoordView,
)
    requires
        is_route(m, route, start, end),
        route.len() > 0,
    ensures
        route[0].start == start,
        route.last().end == end,
        forall|i: int| 0 <= i < route.len() - 1 ==> (#[trigger] route[i]).end == route[i + 1].start,
{
}

/// No route has a length below zero.
pub proof fn lemma_route_length_nonnegative(route: Seq<StreetSegmentView>)
    ensures
        route_length(route) >= 0,
    decreases route.len(),
{
    if route.len() > 0 {
        lemma_route_length_nonnegative(route.drop_last());
    }
}

/// A route is as long as its two parts together, wherever it is cut.
pub proof fn lemma_route_length_split(route: Seq<StreetSegmentView>, i: int)
    requires
        0 <= i <= route.len(),
    ensures
        route_length(route) == route_length(route.subrange(0, i)) + route_length(
            route.subrange(i, route.len() as int),
        ),
    decreases route.len(),
{
    let n = route.len() as int;
    if i == n {
        assert(route.subrange(0, i) =~= route);
        assert(route.subrange(i, n) =~= Seq::empty());
    } else {
        lemma_route_length_split(route.drop_last(), i);
        assert(route.drop_last().subrange(0, i) =~= route.subrange(0, i));
        assert(route.drop_last().subrange(i, n - 1) =~= route.subrange(i, n).drop_last());
    }
}

/// A segment put before a route adds its length.
pub proof fn lemma_route_length_prepend(s: StreetSegmentView, route: Seq<StreetSegmentView>)
    ensures
        route_length(seq![s] + route) == s.length + route_length(route),
{
    let whole = seq![s] + route;
    lemma_route_length_split(whole, 1);
    assert(whole.subrange(0, 1) =~= seq![s]);
    assert(whole.subrange(1, whole.len() as int) =~= route);
    assert(seq![s].drop_last() =~= Seq::<StreetSegmentView>::empty());
    assert(route_length(seq![s].drop_last()) == 0);
    assert(seq![s].last() == s);
    assert(route_length(seq![s]) == s.length);
}

/// Where a route stands before its segment `i`; behind the last, its end.
pub open spec fn stop_at(route: Seq<StreetSegmentView>, end: GeoCoordView, i: int) -> GeoCoordView {
    if i < route.len() {
        route[i].start
    } else {
        end
    }
}

/// What is left of a route from its segment `i` on is a route to the same end.
pub proof fn lemma_route_rest(
    m: StreetMapView,
    route: Seq<StreetSegmentView>,
    start: GeoCoordView,
    end: GeoCoordView,
    i: int,
)
    requires
        is_route(m, route, start, end),
        0 <= i <= route.len(),
    ensures
        is_route(m, route.subrange(i, route.len() as int), stop_at(route, end, i), end),
{
    let rest = route.subrange(i, route.len() as int);
    assert forall|j: int| 0 <= j < rest.len() implies m.contains_key((#[trigger] rest[j]).start)
        && m[rest[j].start].contains(rest[j]) by {
        assert(rest[j] == route[i + j]);
    }
    assert forall|j: int| 0 <= j < rest.len() - 1 implies (#[trigger] rest[j]).end == rest[j
        + 1].start by {
        assert(rest[j] == route[i + j]);
        assert(rest[j + 1] == route[i + j + 1]);
    }
    if i < route.len() {
        assert(rest[0] == route[i]);
    }
}

/// A segment put before a route that begins where it ends makes a route.
pub proof fn lemma_route_prepend(
    m: StreetMapView,
    s: StreetSegmentView,
    route: Seq<StreetSegmentView>,
    end: GeoCoordView,
)
    requires
        is_route(m, route, s.end, end),
        m.contains_key(s.start),
        m[s.start].contains(s),
    ensures
        is_route(m, seq![s] + route, s.start, end),
{
    let whole = seq![s] + route;
    assert forall|j: int| 0 <= j < whole.len() implies m.contains_key((#[trigger] whole[j]).start)
        && m[whole[j].start].contains(whole[j]) by {
        if j > 0 {
            assert(whole[j] == route[j - 1]);
        }
    }
    assert forall|j: int| 0 <= j < whole.len() - 1 implies (#[trigger] whole[j]).end == whole[j
        + 1].start by {
        assert(whole[j + 1] == route[j]);
        if j > 0 {
            assert(whole[j] == route[j - 1]);
        }
    }
    if route.len() > 0 {
        assert(whole[whole.len() - 1] == route[route.len() - 1]);
    }
}

} // verus!
