//! The order of stops: a search by random swaps for a short round trip
//! from the depot through every stop, measured by straight-line distances.
//!
//! A tour is an order of the stops' indices. The distances that the search
//! compares are measured once and kept in a table: row and column 0 stand
//! for the depot, row and column `i + 1` for stop `i`.
use crate::geo::{DeliveryRequest, DeliveryRequestView, GeoCoord};
use vstd::prelude::*;

verus! {

/// The random number generator of the `fastrand` crate.
#[verifier::external_type_specification]
#[verifier::external_body]
pub struct ExRng(fastrand::Rng);

/// Calls `fastrand::Rng::new`: a generator seeded from the thread's own.
/// Nothing is claimed of it.
#[verifier::external_body]
fn fresh_generator() -> (r: fastrand::Rng) {
    fastrand::Rng::new()
}

/// Calls `fastrand::Rng::with_seed`: a generator that starts from `seed`.
/// Nothing is claimed of it.
#[verifier::external_body]
fn seeded_generator(seed: u64) -> (r: fastrand::Rng) {
    fastrand::Rng::with_seed(seed)
}

/// Calls `fastrand::Rng::usize` with the range `..n`, which gives a number
/// of that range and panics where the range is empty.
#[verifier::external_body]
fn draw_below(rng: &fastrand::Rng, n: usize) -> (r: usize)
    requires
        n > 0,
    ensures
        r < n,
{
    rng.usize(..n)
}

/// Calls `fastrand::Rng::u32` with the full range: any number may come.
#[verifier::external_body]
fn draw_word(rng: &fastrand::Rng) -> (r: u32) {
    rng.u32(..)
}

/// The temperature a search starts with, in parts of `TEMPERATURE_ONE`:
/// nine tenths.
pub const START_TEMPERATURE: u32 = 7_549_747;

/// The temperature at which every worse tour would be accepted.
pub const TEMPERATURE_ONE: u32 = 8_388_608;

/// How often the search is taken up again from the best tour.
pub const RESTARTS: u32 = 100;

/// Whether `table` has `size` rows of `size` distances.
pub open spec fn square(table: Seq<Vec<u64>>, size: int) -> bool {
    &&& table.len() == size
    &&& forall|i: int| 0 <= i < size ==> (#[trigger] table[i]).len() == size
}

/// Whether `tour` names each of `n` stops once.
pub open spec fn is_tour(tour: Seq<usize>, n: int) -> bool {
    &&& tour.len() == n
    &&& forall|i: int| 0 <= i < n ==> (#[trigger] tour[i]) < n
    &&& forall|i: int, j: int| 0 <= i < j < n ==> tour[i] != tour[j]
}

/// The tour that names the stops in the order given.
pub open spec fn identity_tour(n: int) -> Seq<usize> {
    Seq::new(n as nat, |i: int| i as usize)
}

/// The table index of the place where leg `i` of a tour begins: the depot
/// for the first leg, else the stop before.
pub open spec fn leg_from(tour: Seq<usize>, i: int) -> int {
    if i == 0 {
        0
    } else {
        tour[i - 1] + 1
    }
}

/// The table index of the place where leg `i` of a tour ends: the depot for
/// the last leg, else the stop.
pub open spec fn leg_to(tour: Seq<usize>, i: int) -> int {
    if i < tour.len() {
        tour[i] + 1
    } else {
        0
    }
}

/// The length of the first `legs` legs of a tour.
pub open spec fn legs_cost(table: Seq<Vec<u64>>, tour: Seq<usize>, legs: int) -> int
    decreases legs,
{
    if legs <= 0 {
        0
    } else {
        legs_cost(table, tour, legs - 1) + table[leg_from(tour, legs - 1)][leg_to(
            tour,
            legs - 1,
        )]
    }
}

/// The length of the round trip: from the depot to the first stop, from
/// each stop to the next, and from the last stop back to the depot.
pub open spec fn tour_cost(table: Seq<Vec<u64>>, tour: Seq<usize>) -> int {
    legs_cost(table, tour, tour.len() as int + 1)
}

/// How many tours in a row may fail to improve on the best before a search
/// ends, for `n` stops.
pub open spec fn patience(n: int) -> int {
    if n <= 10 {
        50
    } else if n <= 100 {
        1000
    } else {
        2000
    }
}

/// The temperature after one more tour was tried.
pub open spec fn cooled(temperature: u32) -> int {
    temperature * 99 / 100
}

/// `tour` with the stops at places `i` and `j` exchanged.
pub open spec fn swapped(tour: Seq<usize>, i: int, j: int) -> Seq<usize> {
    tour.update(i, tour[j]).update(j, tour[i])
}

/// The first legs of a tour are together no longer than so many times the
/// longest distance that can be counted.
pub proof fn lemma_legs_cost_bound(table: Seq<Vec<u64>>, tour: Seq<usize>, legs: int)
    requires
        0 <= legs,
    ensures
        0 <= legs_cost(table, tour, legs) <= legs * u64::MAX,
    decreases legs,
{
    if legs > 0 {
        lemma_legs_cost_bound(table, tour, legs - 1);
    }
}

/// Exchanging two stops of a tour leaves a tour.
pub proof fn lemma_swapped_is_tour(tour: Seq<usize>, n: int, i: int, j: int)
    requires
        is_tour(tour, n),
        0 <= i < n,
        0 <= j < n,
    ensures
        is_tour(swapped(tour, i, j), n),
{
    let t = swapped(tour, i, j);
    assert forall|a: int, b: int| 0 <= a < b < n implies t[a] != t[b] by {
        let a0 = if a == i {
            j
        } else if a == j {
            i
        } else {
            a
        };
        let b0 = if b == i {
            j
        } else if b == j {
            i
        } else {
            b
        };
        assert(t[a] == tour[a0]);
        assert(t[b] == tour[b0]);
        if a0 < b0 {
            assert(tour[a0] != tour[b0]);
        } else {
            assert(tour[b0] != tour[a0]);
        }
    }
}

/// The place that row and column `i` of a distance table stand for.
pub open spec fn place(depot: &GeoCoord, stops: Seq<DeliveryRequest>, i: int) -> &GeoCoord {
    if i == 0 {
        depot
    } else {
        &stops[i - 1].location
    }
}

/// Whether `table` holds, for every two places, a distance that `metric`
/// gave for them.
pub open spec fn measured<F: Fn(&GeoCoord, &GeoCoord) -> u64>(
    table: Seq<Vec<u64>>,
    depot: &GeoCoord,
    stops: Seq<DeliveryRequest>,
    metric: &F,
) -> bool {
    &&& square(table, stops.len() as int + 1)
    &&& forall|i: int, j: int|
        0 <= i <= stops.len() && 0 <= j <= stops.len() ==> metric.ensures(
            (place(depot, stops, i), place(depot, stops, j)),
            #[trigger] table[i][j],
        )
}

/// The views of a list of requests, in order.
pub open spec fn request_views(stops: Seq<DeliveryRequest>) -> Seq<DeliveryRequestView> {
    Seq::new(stops.len(), |i: int| stops[i]@)
}

/// The requests `stops` in the order that `tour` names them.
pub open spec fn in_order(stops: Seq<DeliveryRequestView>, tour: Seq<usize>) -> Seq<
    DeliveryRequestView,
> {
    Seq::new(tour.len(), |i: int| stops[tour[i] as int])
}

/// Whether `ordered` holds the requests `stops` in the order of a tour that
/// is `cost` long by distances that `metric` gave, and no longer than the
/// tour in the order of `stops`.
pub open spec fn optimized<F: Fn(&GeoCoord, &GeoCoord) -> u64>(
    depot: &GeoCoord,
    stops: Seq<DeliveryRequest>,
    metric: &F,
    ordered: Seq<DeliveryRequest>,
    cost: u128,
) -> bool {
    exists|table: Seq<Vec<u64>>, tour: Seq<usize>|
        {
            &&& #[trigger] measured(table, depot, stops, metric)
            &&& #[trigger] is_tour(tour, stops.len() as int)
            &&& request_views(ordered) == in_order(request_views(stops), tour)
            &&& cost == tour_cost(table, tour)
            &&& cost <= tour_cost(table, identity_tour(stops.len() as int))
        }
}

/// The distances between the depot and the stops, each asked of `metric`
/// once.
pub fn distance_table<F: Fn(&GeoCoord, &GeoCoord) -> u64>(
    depot: &GeoCoord,
    stops: &Vec<DeliveryRequest>,
    metric: &F,
) -> (table: Vec<Vec<u64>>)
    requires
        stops.len() < usize::MAX,
        forall|a: &GeoCoord, b: &GeoCoord| metric.requires((a, b)),
    ensures
        measured(table@, depot, stops@, metric),
{
    let size: usize = stops.len() + 1;
    let mut table: Vec<Vec<u64>> = Vec::new();
    let mut i: usize = 0;
    while i < size
        invariant
            size == stops.len() + 1,
            i <= size,
            table.len() == i,
            forall|a: &GeoCoord, b: &GeoCoord| metric.requires((a, b)),
            forall|r: int| 0 <= r < i ==> (#[trigger] table[r]).len() == size,
            forall|r: int, c: int|
                0 <= r < i && 0 <= c < size ==> metric.ensures(
                    (place(depot, stops@, r), place(depot, stops@, c)),
                    #[trigger] table[r][c],
                ),
        decreases size - i,
    {
        let from: &GeoCoord = if i == 0 {
            depot
        } else {
            &stops[i - 1].location
        };
        let mut row: Vec<u64> = Vec::new();
        let mut j: usize = 0;
        while j < size
            invariant
                size == stops.len() + 1,
                i < size,
                j <= size,
                row.len() == j,
                from == place(depot, stops@, i as int),
                forall|a: &GeoCoord, b: &GeoCoord| metric.requires((a, b)),
                forall|c: int|
                    0 <= c < j ==> metric.ensures(
                        (from, place(depot, stops@, c)),
                        #[trigger] row[c],
                    ),
            decreases size - j,
        {
            let to: &GeoCoord = if j == 0 {
                depot
            } else {
                &stops[j - 1].location
            };
            let d: u64 = metric(from, to);
            row.push(d);
            j += 1;
        }
        table.push(row);
        i += 1;
    }
    table
}

/// Where one search stands: the tour it is at, the best tour it has seen,
/// how many tours in a row have failed to give a new best, and the
/// temperature.
pub struct Annealing {
    pub current: Vec<usize>,
    pub current_cost: u128,
    pub best: Vec<usize>,
    pub best_cost: u128,
    pub no_improvements: u32,
    pub temperature: u32,
}

/// What a state of a search is.
pub struct AnnealingView {
    pub current: Seq<usize>,
    pub current_cost: u128,
    pub best: Seq<usize>,
    pub best_cost: u128,
    pub no_improvements: u32,
    pub temperature: u32,
}

impl View for Annealing {
    type V = AnnealingView;

    open spec fn view(&self) -> AnnealingView {
        AnnealingView {
            current: self.current@,
            current_cost: self.current_cost,
            best: self.best@,
            best_cost: self.best_cost,
            no_improvements: self.no_improvements,
            temperature: self.temperature,
        }
    }
}

/// The draw that a random word stands for: the number that its 23 leading
/// bits spell, which is below `TEMPERATURE_ONE`.
pub open spec fn draw_of(word: u32) -> int {
    word as int / 512
}

/// The state after the tour `tried`, which is `tried_cost` long, was
/// considered with the random word `word`.
///
/// A tour shorter than the current one becomes the current one; where it is
/// also shorter than the best, it becomes the best, and the count of
/// failures begins again. Any other tour counts as a failure, and becomes
/// the current one all the same where the draw is below the temperature.
/// Either way the temperature cools.
pub open spec fn considered(
    state: AnnealingView,
    tried: Seq<usize>,
    tried_cost: u128,
    word: u32,
) -> AnnealingView {
    let temperature = cooled(state.temperature) as u32;
    if tried_cost < state.current_cost {
        if tried_cost < state.best_cost {
            AnnealingView {
                current: tried,
                current_cost: tried_cost,
                best: tried,
                best_cost: tried_cost,
                no_improvements: 0,
                temperature,
            }
        } else {
            AnnealingView { current: tried, current_cost: tried_cost, temperature, ..state }
        }
    } else if draw_of(word) < state.temperature {
        AnnealingView {
            current: tried,
            current_cost: tried_cost,
            no_improvements: (state.no_improvements + 1) as u32,
            temperature,
            ..state
        }
    } else {
        AnnealingView {
            no_improvements: (state.no_improvements + 1) as u32,
            temperature,
            ..state
        }
    }
}

/// Considering a tour never makes the best tour longer, and cools the
/// temperature: it falls as long as it is above zero.
pub proof fn lemma_considered_never_worse(
    state: AnnealingView,
    tried: Seq<usize>,
    tried_cost: u128,
    word: u32,
)
    ensures
        considered(state, tried, tried_cost, word).best_cost <= state.best_cost,
        considered(state, tried, tried_cost, word).temperature <= state.temperature,
        state.temperature > 0 ==> considered(state, tried, tried_cost, word).temperature
            < state.temperature,
        state.temperature == 0 ==> considered(state, tried, tried_cost, word).current_cost
            <= state.current_cost,
{
}

/// Considers one tour: see `considered`.
pub fn consider(state: Annealing, tried: Vec<usize>, tried_cost: u128, word: u32) -> (r: Annealing)
    requires
        state.no_improvements < u32::MAX,
    ensures
        r@ == considered(state@, tried@, tried_cost, word),
{
    let temperature: u32 = ((state.temperature as u64) * 99 / 100) as u32;
    if tried_cost < state.current_cost {
        if tried_cost < state.best_cost {
            let best: Vec<usize> = tried.clone();
            Annealing {
                current: tried,
                current_cost: tried_cost,
                best,
                best_cost: tried_cost,
                no_improvements: 0,
                temperature,
            }
        } else {
            Annealing {
                current: tried,
                current_cost: tried_cost,
                best: state.best,
                best_cost: state.best_cost,
                no_improvements: state.no_improvements,
                temperature,
            }
        }
    } else if word / 512 < state.temperature {
        Annealing {
            current: tried,
            current_cost: tried_cost,
            best: state.best,
            best_cost: state.best_cost,
            no_improvements: state.no_improvements + 1,
            temperature,
        }
    } else {
        Annealing {
            current: state.current,
            current_cost: state.current_cost,
            best: state.best,
            best_cost: state.best_cost,
            no_improvements: state.no_improvements + 1,
            temperature,
        }
    }
}

/// How many tours in a row may fail before a search over `n` stops ends.
pub fn patience_for(n: usize) -> (r: u32)
    ensures
        r == patience(n as int),
{
    if n <= 10 {
        50
    } else if n <= 100 {
        1000
    } else {
        2000
    }
}

/// The second of two different places, from a first place and a draw among
/// the places that are left: the draw itself below the first place, the
/// place after it from there on.
pub open spec fn place_besides(first: int, other: int) -> int {
    if other >= first {
        other + 1
    } else {
        other
    }
}

/// The second place: see `place_besides`.
pub fn second_place(first: usize, other: usize) -> (r: usize)
    requires
        other < usize::MAX,
    ensures
        r == place_besides(first as int, other as int),
        r != first,
{
    if other >= first {
        other + 1
    } else {
        other
    }
}

/// `tour` with the stops at places `i` and `j` exchanged.
pub fn swap_stops(tour: Vec<usize>, i: usize, j: usize) -> (r: Vec<usize>)
    requires
        i < tour.len(),
        j < tour.len(),
    ensures
        r@ == swapped(tour@, i as int, j as int),
{
    let mut tour = tour;
    let a: usize = tour[i];
    let b: usize = tour[j];
    tour.set(i, b);
    tour.set(j, a);
    tour
}

/// Finds a good order of stops by random swaps.
pub struct DeliveryOptimizer {
    rng: fastrand::Rng,
}

impl DeliveryOptimizer {
    /// An optimizer whose random choices differ from run to run.
    pub fn new() -> (r: Self) {
        DeliveryOptimizer { rng: fresh_generator() }
    }

    /// An optimizer whose random choices are fixed by `seed`.
    pub fn with_seed(seed: u64) -> (r: Self) {
        DeliveryOptimizer { rng: seeded_generator(seed) }
    }

    /// The length of the round trip `tour` by the distances of `table`.
    pub fn crow_cost(table: &Vec<Vec<u64>>, tour: &Vec<usize>) -> (r: u128)
        requires
            square(table@, tour.len() + 1),
            forall|i: int| 0 <= i < tour.len() ==> (#[trigger] tour[i]) < tour.len(),
        ensures
            r == tour_cost(table@, tour@),
    {
        let n: usize = tour.len();
        let mut total: u128 = 0;
        let mut from: usize = 0;
        let mut i: usize = 0;
        while i < n
            invariant
                n == tour.len(),
                i <= n,
                square(table@, n + 1),
                forall|a: int| 0 <= a < n ==> (#[trigger] tour[a]) < n,
                from == leg_from(tour@, i as int),
                total == legs_cost(table@, tour@, i as int),
            decreases n - i,
        {
            let to: usize = tour[i] + 1;
            proof {
                lemma_legs_cost_bound(table@, tour@, i as int);
                assert(i * u64::MAX + u64::MAX <= u128::MAX) by (nonlinear_arith)
                    requires
                        i <= usize::MAX,
                ;
            }
            total = total + table[from][to] as u128;
            from = to;
            i += 1;
        }
        proof {
            lemma_legs_cost_bound(table@, tour@, n as int);
            assert(n * u64::MAX + u64::MAX <= u128::MAX) by (nonlinear_arith)
                requires
                    n <= usize::MAX,
            ;
        }
        total = total + table[from][0] as u128;
        total
    }

    /// Exchanges two stops of `tour`, chosen at random among all pairs of
    /// different places. A tour of fewer than two stops comes back as it is.
    pub fn permute(&self, tour: Vec<usize>) -> (r: Vec<usize>)
        ensures
            tour.len() < 2 ==> r@ == tour@,
            tour.len() >= 2 ==> exists|i: int, j: int|
                0 <= i < tour.len() && 0 <= j < tour.len() && i != j && r@ == #[trigger] swapped(
                    tour@,
                    i,
                    j,
                ),
    {
        let n: usize = tour.len();
        if n < 2 {
            return tour;
        }
        let first: usize = draw_below(&self.rng, n);
        let other: usize = draw_below(&self.rng, n - 1);
        let second: usize = second_place(first, other);
        swap_stops(tour, first, second)
    }

    /// One search from the tour `start`: tours that differ from the current
    /// one by one swap are considered, one after the other, each with a
    /// fresh random word, until as many in a row as patience allows have
    /// failed to give a new best.
    ///
    /// Gives the best tour seen and its length, which is never more than
    /// the length of `start`.
    pub fn iterate(&self, table: &Vec<Vec<u64>>, start: &Vec<usize>) -> (r: (Vec<usize>, u128))
        requires
            square(table@, start.len() + 1),
            is_tour(start@, start.len() as int),
        ensures
            is_tour(r.0@, start.len() as int),
            r.1 == tour_cost(table@, r.0@),
            r.1 <= tour_cost(table@, start@),
    {
        let n: usize = start.len();
        let limit: u32 = patience_for(n);
        let cost: u128 = Self::crow_cost(table, start);
        let mut state = Annealing {
            current: start.clone(),
            current_cost: cost,
            best: start.clone(),
            best_cost: cost,
            no_improvements: 0,
            temperature: START_TEMPERATURE,
        };
        while state.no_improvements < limit
            invariant
                n == start.len(),
                limit <= 2000,
                square(table@, n + 1),
                is_tour(state.current@, n as int),
                is_tour(state.best@, n as int),
                state.current_cost == tour_cost(table@, state.current@),
                state.best_cost == tour_cost(table@, state.best@),
                state.best_cost <= tour_cost(table@, start@),
                state.no_improvements <= limit,
            decreases state.temperature, state.current_cost, limit - state.no_improvements,
        {
            let tried: Vec<usize> = self.permute(state.current.clone());
            proof {
                if n >= 2 {
                    let (i, j) = choose|i: int, j: int|
                        0 <= i < n && 0 <= j < n && i != j && tried@ == #[trigger] swapped(
                            state.current@,
                            i,
                            j,
                        );
                    lemma_swapped_is_tour(state.current@, n as int, i, j);
                }
            }
            let tried_cost: u128 = Self::crow_cost(table, &tried);
            let word: u32 = draw_word(&self.rng);
            state = consider(state, tried, tried_cost, word);
        }
        (state.best, state.best_cost)
    }

    /// The search over the orders of `n` stops: one search from the order
    /// given, then `RESTARTS` more, each from the best tour so far. Gives
    /// the best tour of all and its length, which is never more than the
    /// length of the order given.
    pub fn simulated_annealing(&self, table: &Vec<Vec<u64>>, n: usize) -> (r: (Vec<usize>, u128))
        requires
            square(table@, n + 1),
        ensures
            is_tour(r.0@, n as int),
            r.1 == tour_cost(table@, r.0@),
            r.1 <= tour_cost(table@, identity_tour(n as int)),
    {
        let mut start: Vec<usize> = Vec::new();
        let mut i: usize = 0;
        while i < n
            invariant
                i <= n,
                start@ == identity_tour(i as int),
            decreases n - i,
        {
            start.push(i);
            i += 1;
        }
        let (mut best, mut best_cost) = self.iterate(table, &start);
        let mut round: u32 = 0;
        while round < RESTARTS
            invariant
                round <= RESTARTS,
                square(table@, n + 1),
                is_tour(best@, n as int),
                best_cost == tour_cost(table@, best@),
                best_cost <= tour_cost(table@, identity_tour(n as int)),
            decreases RESTARTS - round,
        {
            let (tour, cost) = self.iterate(table, &best);
            if cost < best_cost {
                best = tour;
                best_cost = cost;
            }
            round += 1;
        }
        (best, best_cost)
    }

    /// A good order for `deliveries` on a round trip from `depot`, and the
    /// length of that trip by the distances that `metric` gives. The trip
    /// is never longer than the one in the order given.
    pub fn optimize_order<F: Fn(&GeoCoord, &GeoCoord) -> u64>(
        &self,
        depot: &GeoCoord,
        deliveries: Vec<DeliveryRequest>,
        metric: &F,
    ) -> (r: (Vec<DeliveryRequest>, u128))
        requires
            deliveries.len() < usize::MAX,
            forall|a: &GeoCoord, b: &GeoCoord| metric.requires((a, b)),
        ensures
            optimized(depot, deliveries@, metric, r.0@, r.1),
    {
        let n: usize = deliveries.len();
        let table = distance_table(depot, &deliveries, metric);
        let (tour, cost) = self.simulated_annealing(&table, n);
        let mut ordered: Vec<DeliveryRequest> = Vec::new();
        let mut i: usize = 0;
        while i < n
            invariant
                n == deliveries.len(),
                i <= n,
                is_tour(tour@, n as int),
                ordered.len() == i,
                forall|a: int|
                    0 <= a < i ==> (#[trigger] ordered[a])@ == deliveries[tour[a] as int]@,
            decreases n - i,
        {
            ordered.push(deliveries[tour[i]].clone());
            i += 1;
        }
        proof {
            assert(request_views(ordered@) =~= in_order(request_views(deliveries@), tour@));
        }
        (ordered, cost)
    }
}

} // verus!
