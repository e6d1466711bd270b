//! The delivery plan: the stops put in a good order, a route for every leg
//! of the round trip, and the commands that lead the driver along them.
use crate::error::{DeliveryFailure, RouteError};
use crate::geo::{
    angle_between_2_lines, angle_of_line, bearing_change, heading, CommandType, DeliveryCommand,
    DeliveryCommandView, DeliveryRequest, DeliveryRequestView, GeoCoord, GeoCoordView,
    StreetSegment, StreetSegmentView, DEGREE, FULL_TURN, HALF_TURN,
};
use crate::optimizer::{in_order, is_tour, request_views, DeliveryOptimizer};
use crate::point_router::{never_overestimates, routable, shortest, PointToPointRouter};
use crate::route::{
    is_route, lemma_route_length_nonnegative, lemma_route_length_split, route_length,
};
use crate::street_map::{segment_views, StreetMap, StreetMapView};
use vstd::prelude::*;

verus! {

/// The compass direction of a heading, counted counter-clockwise from due
/// east in thousandths of a degree: eight sectors of 45 degrees, the first
/// centred on east. A heading of exactly 247.5 degrees belongs to no
/// sector and counts as east, as does every heading outside a full turn.
pub open spec fn compass_direction(angle: int) -> Seq<char> {
    if 0 <= angle < 22_500 {
        "east"@
    } else if 22_500 <= angle < 67_500 {
        "northeast"@
    } else if 67_500 <= angle < 112_500 {
        "north"@
    } else if 112_500 <= angle < 157_500 {
        "northwest"@
    } else if 157_500 <= angle < 202_500 {
        "west"@
    } else if 202_500 <= angle < 247_500 {
        "southwest"@
    } else if 247_500 < angle < 292_500 {
        "south"@
    } else if 292_500 <= angle < 337_500 {
        "southeast"@
    } else {
        "east"@
    }
}

/// The side to which a change of bearing turns: left for more than one
/// degree and less than half a turn, right for more than half a turn and
/// less than one degree short of a full turn, and no side otherwise.
pub open spec fn turn_side(angle: int) -> Seq<char> {
    if DEGREE < angle < HALF_TURN {
        "left"@
    } else if HALF_TURN < angle < FULL_TURN - DEGREE {
        "right"@
    } else {
        Seq::empty()
    }
}

/// Whether a change of bearing is so small, either way, that the driver
/// goes straight on.
pub open spec fn straight_on(angle: int) -> bool {
    angle < DEGREE || angle > FULL_TURN - DEGREE
}

/// The compass direction of the heading `direction`, in words.
pub fn proceed_dir(direction: i64) -> (r: &'static str)
    ensures
        r@ == compass_direction(direction as int),
{
    if direction >= 0 && direction < 22_500 {
        "east"
    } else if direction >= 22_500 && direction < 67_500 {
        "northeast"
    } else if direction >= 67_500 && direction < 112_500 {
        "north"
    } else if direction >= 112_500 && direction < 157_500 {
        "northwest"
    } else if direction >= 157_500 && direction < 202_500 {
        "west"
    } else if direction >= 202_500 && direction < 247_500 {
        "southwest"
    } else if direction > 247_500 && direction < 292_500 {
        "south"
    } else if direction >= 292_500 && direction < 337_500 {
        "southeast"
    } else {
        "east"
    }
}

/// The side to which the change of bearing `direction` turns, in words;
/// the empty text where it turns to no side.
pub fn turn_dir(direction: i64) -> (r: &'static str)
    ensures
        r@ == turn_side(direction as int),
{
    if direction > 1_000 && direction < 180_000 {
        "left"
    } else if direction > 180_000 && direction < 359_000 {
        "right"
    } else {
        proof {
            reveal_strlit("");
            assert(""@ =~= Seq::<char>::empty());
        }
        ""
    }
}

/// Where the compiler stands within a leg: the commands given out so far,
/// and, once the leg has begun, the proceed command that is still growing
/// together with the segment travelled last.
pub struct Compiling {
    pub done: Seq<DeliveryCommandView>,
    pub pending: Option<(DeliveryCommandView, StreetSegmentView)>,
}

/// The proceed command that begins with segment `seg`.
pub open spec fn proceed_along(seg: StreetSegmentView) -> DeliveryCommandView {
    DeliveryCommandView::proceed(compass_direction(heading(seg)), seg.name, seg.length)
}

/// The state after one more segment. The first segment of a leg begins a
/// proceed command. A segment of the same street as the one before
/// lengthens the command. A segment of another street closes the command;
/// unless the driver goes straight on, a turn command onto the new
/// street follows; then a new proceed command begins.
pub open spec fn step(state: Compiling, seg: StreetSegmentView) -> Compiling {
    match state.pending {
        None => Compiling { done: state.done, pending: Some((proceed_along(seg), seg)) },
        Some((command, last)) => {
            if seg.name == last.name {
                Compiling {
                    done: state.done,
                    pending: Some(
                        (
                            DeliveryCommandView {
                                distance: (command.distance + seg.length) as u64,
                                ..command
                            },
                            seg,
                        ),
                    ),
                }
            } else {
                let angle = bearing_change(last, seg);
                let closed = state.done.push(command);
                Compiling {
                    done: if straight_on(angle) {
                        closed
                    } else {
                        closed.push(DeliveryCommandView::turn(turn_side(angle), seg.name))
                    },
                    pending: Some((proceed_along(seg), seg)),
                }
            }
        },
    }
}

/// The state after the first `upto` segments of `leg`, which begins after
/// the commands `done`.
pub open spec fn along(done: Seq<DeliveryCommandView>, leg: Seq<StreetSegmentView>, upto: int) -> Compiling
    decreases upto,
{
    if upto <= 0 {
        Compiling { done, pending: None }
    } else {
        step(along(done, leg, upto - 1), leg[upto - 1])
    }
}

/// The commands of a state with the growing proceed command closed.
pub open spec fn closed(state: Compiling) -> Seq<DeliveryCommandView> {
    match state.pending {
        Some((command, _)) => state.done.push(command),
        None => state.done,
    }
}

/// The commands after the whole of `leg`, which begins after the commands
/// `done`.
pub open spec fn after_leg(done: Seq<DeliveryCommandView>, leg: Seq<StreetSegmentView>) -> Seq<
    DeliveryCommandView,
> {
    closed(along(done, leg, leg.len() as int))
}

/// The commands for the first `upto` legs: after every leg that has an
/// item, the delivery of that item.
pub open spec fn commands_upto(
    legs: Seq<Seq<StreetSegmentView>>,
    items: Seq<Seq<char>>,
    upto: int,
) -> Seq<DeliveryCommandView>
    decreases upto,
{
    if upto <= 0 {
        Seq::empty()
    } else {
        let driven = after_leg(commands_upto(legs, items, upto - 1), legs[upto - 1]);
        if upto - 1 < items.len() {
            driven.push(DeliveryCommandView::deliver(items[upto - 1]))
        } else {
            driven
        }
    }
}

/// The commands for a round trip of `legs`, delivering `items[i]` at the
/// end of leg `i`.
pub open spec fn plan_commands(legs: Seq<Seq<StreetSegmentView>>, items: Seq<Seq<char>>) -> Seq<
    DeliveryCommandView,
> {
    commands_upto(legs, items, legs.len() as int)
}

/// The views of a list of commands, in order.
pub open spec fn command_views(commands: Seq<DeliveryCommand>) -> Seq<DeliveryCommandView> {
    Seq::new(commands.len(), |i: int| commands[i]@)
}

/// The views of a list of legs, in order.
pub open spec fn leg_views(legs: Seq<Vec<StreetSegment>>) -> Seq<Seq<StreetSegmentView>> {
    Seq::new(legs.len(), |i: int| segment_views(legs[i]@))
}

/// The items of a list of requests, in order.
pub open spec fn items_of(stops: Seq<DeliveryRequestView>) -> Seq<Seq<char>> {
    Seq::new(stops.len(), |i: int| stops[i].item)
}

/// Where leg `i` of the round trip begins: the depot before the first leg
/// and after the last, stop `i - 1` in between.
pub open spec fn waypoint(depot: GeoCoordView, stops: Seq<DeliveryRequestView>, i: int) -> GeoCoordView {
    if 1 <= i <= stops.len() {
        stops[i - 1].location
    } else {
        depot
    }
}

/// Whether `legs` are routes over `m` for the round trip through `stops`:
/// one leg more than stops, leg `i` from waypoint `i` to the next.
pub open spec fn legs_follow(
    m: StreetMapView,
    depot: GeoCoordView,
    stops: Seq<DeliveryRequestView>,
    legs: Seq<Seq<StreetSegmentView>>,
) -> bool {
    &&& legs.len() == stops.len() + 1
    &&& forall|i: int|
        0 <= i < legs.len() ==> is_route(
            m,
            #[trigger] legs[i],
            waypoint(depot, stops, i),
            waypoint(depot, stops, i + 1),
        )
}

/// The length of the first `upto` legs together.
pub open spec fn legs_length(legs: Seq<Seq<StreetSegmentView>>, upto: int) -> int
    decreases upto,
{
    if upto <= 0 {
        0
    } else {
        legs_length(legs, upto - 1) + route_length(legs[upto - 1])
    }
}

/// Whether a route whose length can be counted joins the two ends of leg `i`.
pub open spec fn leg_routable(
    m: StreetMapView,
    depot: GeoCoordView,
    stops: Seq<DeliveryRequestView>,
    i: int,
) -> bool {
    routable(m, waypoint(depot, stops, i), waypoint(depot, stops, i + 1))
}

/// Whether leg `i` is the first of the round trip that no route joins.
pub open spec fn breaks_at(
    m: StreetMapView,
    depot: GeoCoordView,
    stops: Seq<DeliveryRequestView>,
    i: int,
) -> bool {
    &&& 0 <= i <= stops.len()
    &&& forall|j: int| 0 <= j < i ==> #[trigger] leg_routable(m, depot, stops, j)
    &&& !leg_routable(m, depot, stops, i)
}

/// Whether the depot and every stop are on the map.
pub open spec fn all_on_map(
    m: StreetMapView,
    depot: GeoCoordView,
    stops: Seq<DeliveryRequestView>,
) -> bool {
    &&& m.contains_key(depot)
    &&& forall|i: int| 0 <= i < stops.len() ==> m.contains_key((#[trigger] stops[i]).location)
}

/// Whether routes whose lengths can be counted join every two of the depot
/// and the stops.
pub open spec fn all_routable(
    m: StreetMapView,
    depot: GeoCoordView,
    stops: Seq<DeliveryRequestView>,
) -> bool {
    forall|i: int, j: int|
        0 <= i <= stops.len() && 0 <= j <= stops.len() ==> routable(
            m,
            #[trigger] waypoint(depot, stops, i),
            #[trigger] waypoint(depot, stops, j),
        )
}

/// Whether no leg of `legs` is longer than another route between its ends.
pub open spec fn legs_shortest(
    m: StreetMapView,
    depot: GeoCoordView,
    stops: Seq<DeliveryRequestView>,
    legs: Seq<Seq<StreetSegmentView>>,
) -> bool {
    forall|i: int|
        0 <= i < legs.len() ==> shortest(
            m,
            waypoint(depot, stops, i),
            waypoint(depot, stops, i + 1),
            route_length(#[trigger] legs[i]),
        )
}

/// Whether `commands` and `total` are a plan for delivering `stops` from
/// `depot` over `m`: the stops in some order, a route for every leg of the
/// round trip in that order, `total` the length of all legs together, and
/// `commands` the commands for those legs. Where `direct` is set, no leg is
/// longer than another route between its ends.
pub open spec fn planned(
    m: StreetMapView,
    depot: GeoCoordView,
    stops: Seq<DeliveryRequestView>,
    commands: Seq<DeliveryCommandView>,
    total: int,
    direct: bool,
) -> bool {
    exists|tour: Seq<usize>, legs: Seq<Seq<StreetSegmentView>>|
        {
            &&& #[trigger] is_tour(tour, stops.len() as int)
            &&& #[trigger] legs_follow(m, depot, in_order(stops, tour), legs)
            &&& total == legs_length(legs, legs.len() as int)
            &&& commands == plan_commands(legs, items_of(in_order(stops, tour)))
            &&& direct ==> legs_shortest(m, depot, in_order(stops, tour), legs)
        }
}

/// The first legs of a round trip are together no longer than so many
/// times the longest distance that can be counted.
pub proof fn lemma_legs_length_bound(legs: Seq<Seq<StreetSegmentView>>, upto: int)
    requires
        0 <= upto <= legs.len(),
        forall|i: int| 0 <= i < legs.len() ==> route_length(#[trigger] legs[i]) <= u64::MAX,
    ensures
        0 <= legs_length(legs, upto) <= upto * u64::MAX,
    decreases upto,
{
    if upto > 0 {
        lemma_legs_length_bound(legs, upto - 1);
        lemma_route_length_nonnegative(legs[upto - 1]);
        assert((upto - 1) * u64::MAX + u64::MAX == upto * u64::MAX) by (nonlinear_arith);
    }
}

/// A segment of the street travelled last lengthens the growing proceed
/// command by its own length, and no command is given out.
pub proof fn lemma_same_street_lengthens(
    state: Compiling,
    command: DeliveryCommandView,
    last: StreetSegmentView,
    seg: StreetSegmentView,
)
    requires
        state.pending == Some((command, last)),
        seg.name == last.name,
        command.distance + seg.length <= u64::MAX,
    ensures
        step(state, seg).done == state.done,
        step(state, seg).pending == Some(
            (DeliveryCommandView { distance: (command.distance + seg.length) as u64, ..command }, seg),
        ),
        step(state, seg).pending.unwrap().0.distance == command.distance + seg.length,
{
}

/// A leg of two segments of one street gives one proceed command, which is
/// as long as both segments together and heads where the first one heads.
pub proof fn lemma_same_street_merges(
    done: Seq<DeliveryCommandView>,
    a: StreetSegmentView,
    b: StreetSegmentView,
)
    requires
        a.name == b.name,
        a.length + b.length <= u64::MAX,
    ensures
        after_leg(done, seq![a, b]) == done.push(
            DeliveryCommandView::proceed(
                compass_direction(heading(a)),
                a.name,
                (a.length + b.length) as u64,
            ),
        ),
{
    let leg = seq![a, b];
    assert(along(done, leg, 0) == (Compiling { done, pending: None }));
    assert(along(done, leg, 1) == step(along(done, leg, 0), leg[0]));
    assert(along(done, leg, 2) == step(along(done, leg, 1), leg[1]));
}

/// Where the street changes, the growing proceed command is closed, and
/// the change of bearing decides what follows it: no turn command where
/// the bearing does not change at all, or by a full turn; a turn to the
/// left where it changes by more than a degree and less than half a turn;
/// a turn to the right where it changes by more than half a turn and less
/// than a degree short of a full turn. Then a new proceed command begins.
pub proof fn lemma_turn_classification(
    state: Compiling,
    command: DeliveryCommandView,
    last: StreetSegmentView,
    seg: StreetSegmentView,
)
    requires
        state.pending == Some((command, last)),
        seg.name != last.name,
    ensures
        step(state, seg).pending == Some((proceed_along(seg), seg)),
        bearing_change(last, seg) == 0 || bearing_change(last, seg) == FULL_TURN ==> step(
            state,
            seg,
        ).done == state.done.push(command),
        DEGREE < bearing_change(last, seg) < HALF_TURN ==> step(state, seg).done
            == state.done.push(command).push(DeliveryCommandView::turn("left"@, seg.name)),
        HALF_TURN < bearing_change(last, seg) < FULL_TURN - DEGREE ==> step(state, seg).done
            == state.done.push(command).push(DeliveryCommandView::turn("right"@, seg.name)),
{
}

/// The items of the delivery commands among `commands`, in order.
pub open spec fn delivered(commands: Seq<DeliveryCommandView>) -> Seq<Seq<char>>
    decreases commands.len(),
{
    if commands.len() == 0 {
        Seq::empty()
    } else if commands.last().kind == CommandType::Deliver {
        delivered(commands.drop_last()).push(commands.last().item)
    } else {
        delivered(commands.drop_last())
    }
}

/// What one more command adds to the items delivered.
pub proof fn lemma_delivered_push(commands: Seq<DeliveryCommandView>, c: DeliveryCommandView)
    ensures
        delivered(commands.push(c)) == if c.kind == CommandType::Deliver {
            delivered(commands).push(c.item)
        } else {
            delivered(commands)
        },
{
    assert(commands.push(c).drop_last() =~= commands);
}

/// Driving along a leg delivers nothing: every command that the segments
/// of a leg give is a proceed or a turn.
pub proof fn lemma_leg_delivers_nothing(
    done: Seq<DeliveryCommandView>,
    leg: Seq<StreetSegmentView>,
    upto: int,
)
    requires
        0 <= upto <= leg.len(),
    ensures
        delivered(along(done, leg, upto).done) == delivered(done),
        delivered(closed(along(done, leg, upto))) == delivered(done),
        match along(done, leg, upto).pending {
            Some((command, _)) => command.kind == CommandType::Proceed,
            None => true,
        },
    decreases upto,
{
    if upto > 0 {
        lemma_leg_delivers_nothing(done, leg, upto - 1);
        let state = along(done, leg, upto - 1);
        let seg = leg[upto - 1];
        match state.pending {
            None => {},
            Some((command, last)) => {
                if seg.name != last.name {
                    let angle = bearing_change(last, seg);
                    lemma_delivered_push(state.done, command);
                    lemma_delivered_push(
                        state.done.push(command),
                        DeliveryCommandView::turn(turn_side(angle), seg.name),
                    );
                }
            },
        }
        let next = along(done, leg, upto);
        match next.pending {
            None => {},
            Some((command, _)) => {
                lemma_delivered_push(next.done, command);
            },
        }
    }
}

/// The commands for the first legs deliver the items of those legs, one
/// after the other.
pub proof fn lemma_deliveries_upto(
    legs: Seq<Seq<StreetSegmentView>>,
    items: Seq<Seq<char>>,
    upto: int,
)
    requires
        0 <= upto <= legs.len(),
        upto <= items.len(),
    ensures
        delivered(commands_upto(legs, items, upto)) == items.subrange(0, upto),
    decreases upto,
{
    if upto > 0 {
        lemma_deliveries_upto(legs, items, upto - 1);
        let before = commands_upto(legs, items, upto - 1);
        let leg = legs[upto - 1];
        lemma_leg_delivers_nothing(before, leg, leg.len() as int);
        lemma_delivered_push(after_leg(before, leg), DeliveryCommandView::deliver(items[upto - 1]));
        assert(items.subrange(0, upto) =~= items.subrange(0, upto - 1).push(items[upto - 1]));
    } else {
        assert(items.subrange(0, 0) =~= Seq::<Seq<char>>::empty());
    }
}

/// The commands for a round trip deliver every item once, in the order of
/// the stops: the deliveries among them are the items, one after the other.
pub proof fn lemma_every_stop_delivered(legs: Seq<Seq<StreetSegmentView>>, items: Seq<Seq<char>>)
    requires
        legs.len() == items.len() + 1,
    ensures
        delivered(plan_commands(legs, items)) == items,
{
    let n = items.len() as int;
    lemma_deliveries_upto(legs, items, n);
    let before = commands_upto(legs, items, n);
    lemma_leg_delivers_nothing(before, legs[n], legs[n].len() as int);
    assert(items.subrange(0, n) =~= items);
}

/// The distances of the proceed commands among `commands`, added up.
pub open spec fn proceeded(commands: Seq<DeliveryCommandView>) -> int
    decreases commands.len(),
{
    if commands.len() == 0 {
        0
    } else if commands.last().kind == CommandType::Proceed {
        proceeded(commands.drop_last()) + commands.last().distance
    } else {
        proceeded(commands.drop_last())
    }
}

/// What one more command adds to the distance proceeded.
pub proof fn lemma_proceeded_push(commands: Seq<DeliveryCommandView>, c: DeliveryCommandView)
    ensures
        proceeded(commands.push(c)) == if c.kind == CommandType::Proceed {
            proceeded(commands) + c.distance
        } else {
            proceeded(commands)
        },
{
    assert(commands.push(c).drop_last() =~= commands);
}

/// No distance is lost along a leg: the proceed commands that its first
/// segments give, the growing one among them, are together as long as
/// those segments.
pub proof fn lemma_leg_distance(
    done: Seq<DeliveryCommandView>,
    leg: Seq<StreetSegmentView>,
    upto: int,
)
    requires
        0 <= upto <= leg.len(),
        route_length(leg) <= u64::MAX,
    ensures
        proceeded(closed(along(done, leg, upto))) == proceeded(done) + route_length(
            leg.subrange(0, upto),
        ),
        proceeded(along(done, leg, upto).done) >= proceeded(done),
        match along(done, leg, upto).pending {
            Some((command, _)) => command.kind == CommandType::Proceed && proceeded(
                along(done, leg, upto).done,
            ) + command.distance == proceeded(done) + route_length(leg.subrange(0, upto)),
            None => upto == 0,
        },
    decreases upto,
{
    if upto == 0 {
        assert(leg.subrange(0, 0) =~= Seq::<StreetSegmentView>::empty());
    } else {
        lemma_leg_distance(done, leg, upto - 1);
        let state = along(done, leg, upto - 1);
        let next = along(done, leg, upto);
        let seg = leg[upto - 1];
        let n = leg.len() as int;
        let so_far = route_length(leg.subrange(0, upto - 1));
        assert(next == step(state, seg));
        lemma_route_length_split(leg, upto);
        lemma_route_length_nonnegative(leg.subrange(upto, n));
        lemma_route_length_nonnegative(leg.subrange(0, upto - 1));
        assert(leg.subrange(0, upto).drop_last() =~= leg.subrange(0, upto - 1));
        assert(leg.subrange(0, upto).last() == seg);
        assert(route_length(leg.subrange(0, upto)) == so_far + seg.length);
        match state.pending {
            None => {
                assert(next.done == state.done);
                assert(next.pending == Some((proceed_along(seg), seg)));
            },
            Some((command, last)) => {
                assert(command.distance <= so_far);
                if seg.name == last.name {
                    assert(next.done == state.done);
                    assert(next.pending.unwrap().0.distance == command.distance + seg.length);
                } else {
                    let angle = bearing_change(last, seg);
                    let shut = state.done.push(command);
                    lemma_proceeded_push(state.done, command);
                    lemma_proceeded_push(
                        shut,
                        DeliveryCommandView::turn(turn_side(angle), seg.name),
                    );
                    assert(proceeded(next.done) == proceeded(state.done) + command.distance);
                    assert(next.pending == Some((proceed_along(seg), seg)));
                }
            },
        }
        lemma_proceeded_push(next.done, next.pending.unwrap().0);
    }
}

/// No distance proceeded is below zero.
pub proof fn lemma_proceeded_nonnegative(commands: Seq<DeliveryCommandView>)
    ensures
        proceeded(commands) >= 0,
    decreases commands.len(),
{
    if commands.len() > 0 {
        lemma_proceeded_nonnegative(commands.drop_last());
    }
}

/// No distance is lost in a plan: its proceed commands are together as
/// long as its legs.
pub proof fn lemma_plan_distance(
    legs: Seq<Seq<StreetSegmentView>>,
    items: Seq<Seq<char>>,
    upto: int,
)
    requires
        0 <= upto <= legs.len(),
        forall|i: int| 0 <= i < legs.len() ==> route_length(#[trigger] legs[i]) <= u64::MAX,
    ensures
        proceeded(commands_upto(legs, items, upto)) == legs_length(legs, upto),
    decreases upto,
{
    if upto > 0 {
        lemma_plan_distance(legs, items, upto - 1);
        let before = commands_upto(legs, items, upto - 1);
        let leg = legs[upto - 1];
        lemma_leg_distance(before, leg, leg.len() as int);
        assert(leg.subrange(0, leg.len() as int) =~= leg);
        if upto - 1 < items.len() {
            lemma_proceeded_push(
                after_leg(before, leg),
                DeliveryCommandView::deliver(items[upto - 1]),
            );
        }
    }
}

/// Turns the segments of a round trip, fed one by one, into commands.
pub struct CommandCompiler {
    commands: Vec<DeliveryCommand>,
    pending: Option<(DeliveryCommand, StreetSegment)>,
}

impl View for CommandCompiler {
    type V = Compiling;

    closed spec fn view(&self) -> Compiling {
        Compiling {
            done: command_views(self.commands@),
            pending: match self.pending {
                Some((command, last)) => Some((command@, last@)),
                None => None,
            },
        }
    }
}

/// Whether segment `seg` can be fed in `state` without the growing
/// command's distance leaving the distance type.
pub open spec fn fits(state: Compiling, seg: StreetSegmentView) -> bool {
    match state.pending {
        Some((command, last)) => seg.name == last.name ==> command.distance + seg.length
            <= u64::MAX,
        None => true,
    }
}

impl CommandCompiler {
    /// A compiler before the first leg.
    pub fn new() -> (r: Self)
        ensures
            r@ == (Compiling { done: Seq::empty(), pending: None }),
    {
        let r = CommandCompiler { commands: Vec::new(), pending: None };
        assert(command_views(r.commands@) =~= Seq::empty());
        r
    }

    /// The proceed command that begins with `seg`.
    fn begin(seg: &StreetSegment) -> (r: DeliveryCommand)
        ensures
            r@ == proceed_along(seg@),
    {
        DeliveryCommand::new_proceed(
            proceed_dir(angle_of_line(seg)).to_string(),
            seg.name.clone(),
            seg.length,
        )
    }

    /// Feeds the next segment of the leg.
    pub fn segment(&mut self, seg: &StreetSegment)
        requires
            fits(old(self)@, seg@),
        ensures
            final(self)@ == step(old(self)@, seg@),
    {
        let mut taken: Option<(DeliveryCommand, StreetSegment)> = None;
        core::mem::swap(&mut self.pending, &mut taken);
        match taken {
            None => {
                self.pending = Some((Self::begin(seg), seg.clone()));
            },
            Some((command, last)) => {
                if seg.name == last.name {
                    let mut command = command;
                    command.increase_distance(seg.length);
                    self.pending = Some((command, seg.clone()));
                } else {
                    let ghost before = self.commands@;
                    let ghost closing = command@;
                    self.commands.push(command);
                    assert(command_views(self.commands@) =~= command_views(before).push(closing));
                    let angle: i64 = angle_between_2_lines(&last, seg);
                    if !(angle < 1_000 || angle > 359_000) {
                        let ghost closed = self.commands@;
                        let turn = DeliveryCommand::new_turn(
                            turn_dir(angle).to_string(),
                            seg.name.clone(),
                        );
                        self.commands.push(turn);
                        assert(command_views(self.commands@) =~= command_views(closed).push(
                            turn@,
                        ));
                    }
                    self.pending = Some((Self::begin(seg), seg.clone()));
                }
            },
        }
    }

    /// Ends the leg: the growing proceed command, if there is one, is closed.
    pub fn end_leg(&mut self)
        ensures
            final(self)@ == (Compiling { done: closed(old(self)@), pending: None }),
    {
        let mut taken: Option<(DeliveryCommand, StreetSegment)> = None;
        core::mem::swap(&mut self.pending, &mut taken);
        match taken {
            None => {},
            Some((command, _)) => {
                let ghost before = self.commands@;
                let ghost closing = command@;
                self.commands.push(command);
                assert(command_views(self.commands@) =~= command_views(before).push(closing));
            },
        }
    }

    /// Adds the delivery of `item`. It is meant to follow the end of a leg.
    pub fn deliver(&mut self, item: &str)
        ensures
            final(self)@ == (Compiling {
                done: old(self)@.done.push(DeliveryCommandView::deliver(item@)),
                ..old(self)@
            }),
    {
        let ghost before = self.commands@;
        let command = DeliveryCommand::new_deliver(item.to_string());
        self.commands.push(command);
        assert(command_views(self.commands@) =~= command_views(before).push(command@));
    }

    /// The commands given out so far. A proceed command that is still
    /// growing is not among them.
    pub fn finish(self) -> (r: Vec<DeliveryCommand>)
        ensures
            command_views(r@) == self@.done,
    {
        self.commands
    }
}

/// The commands for a round trip: the legs in order, each segment by
/// segment, and after leg `i` the delivery of the item of `stops[i]`, as far
/// as there are stops.
pub fn compile_commands(legs: &Vec<Vec<StreetSegment>>, stops: &Vec<DeliveryRequest>) -> (commands:
    Vec<DeliveryCommand>)
    requires
        forall|i: int|
            0 <= i < legs.len() ==> route_length(#[trigger] segment_views(legs[i]@)) <= u64::MAX,
    ensures
        command_views(commands@) == plan_commands(
            leg_views(legs@),
            items_of(request_views(stops@)),
        ),
{
    let mut compiler = CommandCompiler::new();
    let mut i: usize = 0;
    while i < legs.len()
        invariant
            i <= legs.len(),
            forall|a: int|
                0 <= a < legs.len() ==> route_length(#[trigger] segment_views(legs[a]@))
                    <= u64::MAX,
            compiler@ == (Compiling {
                done: commands_upto(
                    leg_views(legs@),
                    items_of(request_views(stops@)),
                    i as int,
                ),
                pending: None,
            }),
        decreases legs.len() - i,
    {
        let leg: &Vec<StreetSegment> = &legs[i];
        let ghost done = compiler@.done;
        let ghost views = segment_views(leg@);
        assert(leg_views(legs@)[i as int] == views);
        let mut k: usize = 0;
        while k < leg.len()
            invariant
                k <= leg.len(),
                views == segment_views(leg@),
                route_length(views) <= u64::MAX,
                compiler@ == along(done, views, k as int),
                match compiler@.pending {
                    Some((command, _)) => command.distance <= route_length(
                        views.subrange(0, k as int),
                    ),
                    None => true,
                },
            decreases leg.len() - k,
        {
            proof {
                let n = views.len() as int;
                lemma_route_length_split(views, k + 1);
                lemma_route_length_nonnegative(views.subrange(k + 1, n));
                lemma_route_length_nonnegative(views.subrange(0, k as int));
                assert(views.subrange(0, k + 1).drop_last() =~= views.subrange(0, k as int));
                assert(views.subrange(0, k + 1).last() == views[k as int]);
            }
            compiler.segment(&leg[k]);
            k += 1;
        }
        compiler.end_leg();
        if i < stops.len() {
            compiler.deliver(stops[i].item.as_str());
        }
        i += 1;
    }
    compiler.finish()
}

/// Plans deliveries over one street map.
pub struct DeliveryPlanner<'a> {
    point_router: PointToPointRouter<'a>,
    optimizer: DeliveryOptimizer,
}

impl<'a> DeliveryPlanner<'a> {
    /// The street map that the plans are made for.
    pub closed spec fn map(&self) -> &StreetMap {
        self.point_router.map()
    }

    /// A planner whose random choices differ from run to run.
    pub fn new(street_map: &'a StreetMap) -> (r: Self)
        ensures
            r.map() == street_map,
    {
        DeliveryPlanner {
            point_router: PointToPointRouter::from(street_map),
            optimizer: DeliveryOptimizer::new(),
        }
    }

    /// A planner that orders the stops with `optimizer`.
    pub fn with_optimizer(street_map: &'a StreetMap, optimizer: DeliveryOptimizer) -> (r: Self)
        ensures
            r.map() == street_map,
    {
        DeliveryPlanner { point_router: PointToPointRouter::from(street_map), optimizer }
    }

    /// A route for every leg of the round trip from `depot` through `stops`
    /// in the order given, and the length of all legs together. `metric`
    /// guides the search for each leg.
    ///
    /// Fails at the first leg that no route joins: with `BadCoord` where
    /// one of its ends is not on the map, else with `NoRoute`.
    pub fn plan_legs<F: Fn(&GeoCoord, &GeoCoord) -> u64>(
        &self,
        depot: &GeoCoord,
        stops: &Vec<DeliveryRequest>,
        metric: &F,
    ) -> (r: Result<(Vec<Vec<StreetSegment>>, u128), RouteError>)
        requires
            forall|a: &GeoCoord, b: &GeoCoord| metric.requires((a, b)),
        ensures
            match r {
                Ok((legs, total)) => {
                    &&& legs_follow(self.map()@, depot@, request_views(stops@), leg_views(legs@))
                    &&& total == legs_length(leg_views(legs@), legs.len() as int)
                    &&& forall|i: int|
                        0 <= i < legs.len() ==> route_length(#[trigger] segment_views(legs[i]@))
                            <= u64::MAX
                    &&& (forall|end: &GeoCoord| never_overestimates(self.map()@, metric, end))
                        ==> legs_shortest(
                        self.map()@,
                        depot@,
                        request_views(stops@),
                        leg_views(legs@),
                    )
                },
                Err(err) => exists|i: int|
                    {
                        &&& #[trigger] breaks_at(self.map()@, depot@, request_views(stops@), i)
                        &&& err.kind == DeliveryFailure::BadCoord <==> !self.map()@.contains_key(
                            waypoint(depot@, request_views(stops@), i),
                        ) || !self.map()@.contains_key(
                            waypoint(depot@, request_views(stops@), i + 1),
                        )
                        &&& err.kind != DeliveryFailure::Other
                    },
            },
            r.is_ok() <==> forall|i: int|
                0 <= i <= stops.len() ==> #[trigger] leg_routable(
                    self.map()@,
                    depot@,
                    request_views(stops@),
                    i,
                ),
    {
        let n: usize = stops.len();
        let ghost m = self.map()@;
        let ghost views = request_views(stops@);
        let mut legs: Vec<Vec<StreetSegment>> = Vec::new();
        let mut total: u128 = 0;
        let mut i: usize = 0;
        while i < n
            invariant
                n == stops.len(),
                i <= n,
                m == self.map()@,
                views == request_views(stops@),
                forall|a: &GeoCoord, b: &GeoCoord| metric.requires((a, b)),
                legs.len() == i,
                forall|j: int|
                    0 <= j < i ==> is_route(
                        m,
                        #[trigger] leg_views(legs@)[j],
                        waypoint(depot@, views, j),
                        waypoint(depot@, views, j + 1),
                    ),
                forall|j: int|
                    0 <= j < i ==> route_length(#[trigger] segment_views(legs[j]@)) <= u64::MAX,
                forall|j: int| 0 <= j < i ==> #[trigger] leg_routable(m, depot@, views, j),
                (forall|end: &GeoCoord| never_overestimates(m, metric, end)) ==> forall|j: int|
                    0 <= j < i ==> shortest(
                        m,
                        waypoint(depot@, views, j),
                        waypoint(depot@, views, j + 1),
                        route_length(#[trigger] leg_views(legs@)[j]),
                    ),
                total == legs_length(leg_views(legs@), i as int),
            decreases n - i,
        {
            let from: &GeoCoord = if i == 0 {
                depot
            } else {
                &stops[i - 1].location
            };
            let to: &GeoCoord = &stops[i].location;
            assert(from@ == waypoint(depot@, views, i as int));
            assert(to@ == waypoint(depot@, views, i + 1));
            match self.point_router.generate_route(from, to, metric) {
                Ok((route, d)) => {
                    let ghost before = legs@;
                    proof {
                        lemma_legs_length_bound(leg_views(before), i as int);
                        assert(i * u64::MAX + u64::MAX <= u128::MAX) by (nonlinear_arith)
                            requires
                                i <= usize::MAX,
                        ;
                    }
                    total = total + d as u128;
                    legs.push(route);
                    proof {
                        lemma_legs_prefix(leg_views(before), leg_views(legs@), i as int);
                        assert(leg_views(legs@)[i as int] == segment_views(legs[i as int]@));
                        assert forall|j: int| 0 <= j < i + 1 implies is_route(
                            m,
                            #[trigger] leg_views(legs@)[j],
                            waypoint(depot@, views, j),
                            waypoint(depot@, views, j + 1),
                        ) by {
                            if j < i {
                                assert(leg_views(legs@)[j] == leg_views(before)[j]);
                            }
                        }
                        if forall|end: &GeoCoord| never_overestimates(m, metric, end) {
                            assert(never_overestimates(m, metric, to));
                            assert forall|j: int| 0 <= j < i + 1 implies shortest(
                                m,
                                waypoint(depot@, views, j),
                                waypoint(depot@, views, j + 1),
                                route_length(#[trigger] leg_views(legs@)[j]),
                            ) by {
                                if j < i {
                                    assert(leg_views(legs@)[j] == leg_views(before)[j]);
                                }
                            }
                        }
                    }
                },
                Err(err) => {
                    assert(breaks_at(m, depot@, views, i as int));
                    return Err(err);
                },
            }
            i += 1;
        }
        let from: &GeoCoord = if n == 0 {
            depot
        } else {
            &stops[n - 1].location
        };
        assert(from@ == waypoint(depot@, views, n as int));
        assert(depot@ == waypoint(depot@, views, n + 1));
        match self.point_router.generate_route(from, depot, metric) {
            Ok((route, d)) => {
                let ghost before = legs@;
                proof {
                    lemma_legs_length_bound(leg_views(before), n as int);
                    assert(n * u64::MAX + u64::MAX <= u128::MAX) by (nonlinear_arith)
                        requires
                            n <= usize::MAX,
                    ;
                }
                total = total + d as u128;
                legs.push(route);
                proof {
                    lemma_legs_prefix(leg_views(before), leg_views(legs@), n as int);
                    assert(leg_views(legs@)[n as int] == segment_views(legs[n as int]@));
                    assert forall|j: int| 0 <= j < n + 1 implies is_route(
                        m,
                        #[trigger] leg_views(legs@)[j],
                        waypoint(depot@, views, j),
                        waypoint(depot@, views, j + 1),
                    ) by {
                        if j < n {
                            assert(leg_views(legs@)[j] == leg_views(before)[j]);
                        }
                    }
                    if forall|end: &GeoCoord| never_overestimates(m, metric, end) {
                        assert(never_overestimates(m, metric, depot));
                        assert forall|j: int| 0 <= j < n + 1 implies shortest(
                            m,
                            waypoint(depot@, views, j),
                            waypoint(depot@, views, j + 1),
                            route_length(#[trigger] leg_views(legs@)[j]),
                        ) by {
                            if j < n {
                                assert(leg_views(legs@)[j] == leg_views(before)[j]);
                            }
                        }
                    }
                }
                Ok((legs, total))
            },
            Err(err) => {
                assert(breaks_at(m, depot@, views, n as int));
                Err(err)
            },
        }
    }
}

impl<'a> DeliveryPlanner<'a> {
    /// Whether the depot and every stop are on the map.
    fn all_present(&self, depot: &GeoCoord, stops: &Vec<DeliveryRequest>) -> (r: bool)
        ensures
            r == all_on_map(self.map()@, depot@, request_views(stops@)),
    {
        if !self.point_router.on_map(depot) {
            return false;
        }
        let mut i: usize = 0;
        while i < stops.len()
            invariant
                i <= stops.len(),
                forall|j: int|
                    0 <= j < i ==> self.map()@.contains_key(
                        (#[trigger] request_views(stops@)[j]).location,
                    ),
            decreases stops.len() - i,
        {
            if !self.point_router.on_map(&stops[i].location) {
                assert(!self.map()@.contains_key(request_views(stops@)[i as int].location));
                return false;
            }
            i += 1;
        }
        true
    }

    /// The plan for delivering `deliveries` on one round trip from `depot`:
    /// the commands for the driver, and the length of the whole trip.
    ///
    /// The stops are put in a good order by the straight-line distances
    /// that `metric` gives; then a route is sought for every leg, guided by
    /// `metric`, and the routes are turned into commands.
    ///
    /// Fails with `BadCoord` exactly where the depot or a stop is not on
    /// the map. Fails with `NoRoute` where the first leg that no route
    /// joins stops the plan. Where routes join every two of the depot and
    /// the stops, there is a plan.
    pub fn generate_plan<F: Fn(&GeoCoord, &GeoCoord) -> u64>(
        &self,
        depot: GeoCoord,
        deliveries: Vec<DeliveryRequest>,
        metric: &F,
    ) -> (r: Result<(Vec<DeliveryCommand>, u128), RouteError>)
        requires
            deliveries.len() < usize::MAX,
            forall|a: &GeoCoord, b: &GeoCoord| metric.requires((a, b)),
        ensures
            match r {
                Ok((commands, total)) => planned(
                    self.map()@,
                    depot@,
                    request_views(deliveries@),
                    command_views(commands@),
                    total as int,
                    forall|end: &GeoCoord| never_overestimates(self.map()@, metric, end),
                ),
                Err(err) => {
                    &&& err.kind == DeliveryFailure::BadCoord <==> !all_on_map(
                        self.map()@,
                        depot@,
                        request_views(deliveries@),
                    )
                    &&& err.kind == DeliveryFailure::NoRoute ==> !all_routable(
                        self.map()@,
                        depot@,
                        request_views(deliveries@),
                    )
                    &&& err.kind != DeliveryFailure::Other
                },
            },
            all_routable(self.map()@, depot@, request_views(deliveries@)) ==> r.is_ok(),
    {
        let ghost m = self.map()@;
        let ghost views = request_views(deliveries@);
        proof {
            if all_routable(m, depot@, views) {
                lemma_routable_on_map(m, depot@, views);
            }
        }
        if !self.all_present(&depot, &deliveries) {
            return Err(RouteError::new(DeliveryFailure::BadCoord));
        }
        let ghost stops = deliveries@;
        let (ordered, _) = self.optimizer.optimize_order(&depot, deliveries, metric);
        let ghost tour = choose|tour: Seq<usize>| #[trigger]
            is_tour(tour, stops.len() as int) && request_views(ordered@) == in_order(views, tour);
        let ghost turned = request_views(ordered@);
        assert(is_tour(tour, stops.len() as int) && turned == in_order(views, tour));
        proof {
            assert forall|i: int| 0 <= i <= turned.len() + 1 implies exists|a: int|
                0 <= a <= views.len() && #[trigger] waypoint(depot@, turned, i) == waypoint(
                    depot@,
                    views,
                    a,
                ) by {
                if 1 <= i <= turned.len() {
                    assert(waypoint(depot@, turned, i) == waypoint(
                        depot@,
                        views,
                        tour[i - 1] + 1,
                    ));
                } else {
                    assert(waypoint(depot@, turned, i) == waypoint(depot@, views, 0));
                }
            }
        }
        match self.plan_legs(&depot, &ordered, metric) {
            Err(err) => {
                proof {
                    let i = choose|i: int| #[trigger]
                        breaks_at(m, depot@, turned, i) && (err.kind == DeliveryFailure::BadCoord
                            <==> !m.contains_key(waypoint(depot@, turned, i)) || !m.contains_key(
                            waypoint(depot@, turned, i + 1),
                        ));
                    let a = choose|a: int|
                        0 <= a <= views.len() && waypoint(depot@, turned, i) == waypoint(
                            depot@,
                            views,
                            a,
                        );
                    let b = choose|b: int|
                        0 <= b <= views.len() && waypoint(depot@, turned, i + 1) == waypoint(
                            depot@,
                            views,
                            b,
                        );
                    assert(m.contains_key(waypoint(depot@, views, a)));
                    assert(m.contains_key(waypoint(depot@, views, b)));
                    assert(!routable(m, waypoint(depot@, views, a), waypoint(depot@, views, b)));
                }
                Err(err)
            },
            Ok((legs, total)) => {
                let commands = compile_commands(&legs, &ordered);
                proof {
                    assert(legs_follow(m, depot@, in_order(views, tour), leg_views(legs@)));
                }
                Ok((commands, total))
            },
        }
    }
}

/// Where routes join every two of the depot and the stops, all are on the map.
pub proof fn lemma_routable_on_map(
    m: StreetMapView,
    depot: GeoCoordView,
    stops: Seq<DeliveryRequestView>,
)
    requires
        all_routable(m, depot, stops),
    ensures
        all_on_map(m, depot, stops),
{
    assert(routable(m, waypoint(depot, stops, 0), waypoint(depot, stops, 0)));
    assert forall|i: int| 0 <= i < stops.len() implies m.contains_key(
        (#[trigger] stops[i]).location,
    ) by {
        assert(routable(m, waypoint(depot, stops, i + 1), waypoint(depot, stops, i + 1)));
    }
}

/// The first legs of a list count the same in every list that begins with them.
pub proof fn lemma_legs_prefix(
    before: Seq<Seq<StreetSegmentView>>,
    after: Seq<Seq<StreetSegmentView>>,
    upto: int,
)
    requires
        0 <= upto <= before.len() <= after.len(),
        forall|i: int| 0 <= i < upto ==> before[i] == after[i],
    ensures
        legs_length(before, upto) == legs_length(after, upto),
    decreases upto,
{
    if upto > 0 {
        lemma_legs_prefix(before, after, upto - 1);
    }
}

} // verus!
