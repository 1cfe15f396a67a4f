use vstd::prelude::*;
use crate::network::{Edge, Location, Transportation};

verus! {

/// Why a path is not a legal trip.
#[derive(Debug, Clone, Copy, PartialEq, Eq, Structural)]
pub enum ConstraintViolation {
    /// The personal bike is used away from the origin without having been
    /// picked up there.
    BikeUnavailable,
    /// The personal bike is held while boarding the Acela express service.
    BikeForbidden,
}

impl ConstraintViolation {
    pub fn message(&self) -> (r: &'static str)
        ensures
            *self == ConstraintViolation::BikeUnavailable ==> r@ == "Not able to ride personal bike in this path"@,
            *self == ConstraintViolation::BikeForbidden ==> r@ == "Not allowed to bring bike on Acela"@,
    {
        match self {
            ConstraintViolation::BikeUnavailable => "Not able to ride personal bike in this path",
            ConstraintViolation::BikeForbidden => "Not allowed to bring bike on Acela",
        }
    }
}

/// Aggregate metrics of an accepted trip: minutes, cents, hassle units.
#[derive(Debug, Clone, Copy, PartialEq, Eq, Structural)]
pub struct TripMetrics {
    pub total_time: u64,
    pub total_cost: u64,
    pub total_hassle_units: i64,
}

/// Longest path the validator takes, so that its totals fit their types.
pub const MAX_PATH_LEN: usize = 1073741824;

/// Sum of the edges' total times.
pub open spec fn time_sum(p: Seq<Edge>) -> int
    decreases p.len(),
{
    if p.len() == 0 {
        0
    } else {
        time_sum(p.drop_last()) + p.last().total_time()
    }
}

/// Sum of the edges' wait times.
pub open spec fn wait_sum(p: Seq<Edge>) -> int
    decreases p.len(),
{
    if p.len() == 0 {
        0
    } else {
        wait_sum(p.drop_last()) + p.last().wait_time
    }
}

/// Sum of the edges' hassle units.
pub open spec fn hassle_sum(p: Seq<Edge>) -> int
    decreases p.len(),
{
    if p.len() == 0 {
        0
    } else {
        hassle_sum(p.drop_last()) + p.last().hassle_units
    }
}

/// Edge `i` starts a new block of same-mode edges, so its fare is charged.
pub open spec fn charged(p: Seq<Edge>, i: int) -> bool {
    i == 0 || p[i - 1].transportation != p[i].transportation
}

/// Sum of the fares charged: one per contiguous block of same-mode edges.
pub open spec fn fare_sum(p: Seq<Edge>) -> int
    decreases p.len(),
{
    if p.len() == 0 {
        0
    } else {
        fare_sum(p.drop_last()) + if charged(p, p.len() - 1) {
            p.last().cost as int
        } else {
            0
        }
    }
}

/// Hassle units added once for the trip's total wait time.
pub open spec fn wait_surcharge(w: int) -> int {
    if 0 < w <= 15 {
        1
    } else if 16 <= w <= 60 {
        3
    } else {
        0
    }
}

/// The wait surcharge's bands at their edges: a total wait of 15 adds one
/// unit, 16 adds three, and none is added for no wait or for more than an
/// hour.
pub proof fn lemma_wait_surcharge_bands()
    ensures
        wait_surcharge(15) == 1,
        wait_surcharge(16) == 3,
        wait_surcharge(0) == 0,
        wait_surcharge(61) == 0,
        forall|w: int| 0 < w <= 15 ==> wait_surcharge(w) == 1,
        forall|w: int| 16 <= w <= 60 ==> wait_surcharge(w) == 3,
        forall|w: int| w > 60 ==> wait_surcharge(w) == 0,
{
}

/// Where the traveller stands after the edges of `p`, starting at `origin`.
pub open spec fn location_after(p: Seq<Edge>, origin: Location) -> Location {
    if p.len() == 0 {
        origin
    } else {
        p.last().destination
    }
}

/// The bike rules walked over `p`: whether the personal bike is held after
/// its last edge, or the first rule broken.
pub open spec fn bike_state(p: Seq<Edge>, origin: Location) -> Result<bool, ConstraintViolation>
    decreases p.len(),
{
    if p.len() == 0 {
        Ok(false)
    } else {
        match bike_state(p.drop_last(), origin) {
            Err(v) => Err(v),
            Ok(has_bike) => {
                let e = p.last();
                let at_origin = location_after(p.drop_last(), origin) == origin;
                let bike = e.transportation == Transportation::PersonalBike;
                if bike && !has_bike && !at_origin {
                    Err(ConstraintViolation::BikeUnavailable)
                } else {
                    let held = has_bike || (bike && at_origin);
                    if e.transportation == Transportation::AmtrakAcela && held {
                        Err(ConstraintViolation::BikeForbidden)
                    } else {
                        Ok(held)
                    }
                }
            },
        }
    }
}

/// What evaluating `p` from `origin` gives: the first rule broken, or the
/// trip's time, cost and hassle units (wait surcharge included).
pub open spec fn evaluation(p: Seq<Edge>, origin: Location) -> Result<
    (int, int, int),
    ConstraintViolation,
> {
    match bike_state(p, origin) {
        Err(v) => Err(v),
        Ok(_) => Ok((time_sum(p), fare_sum(p), hassle_sum(p) + wait_surcharge(wait_sum(p)))),
    }
}

pub open spec fn metrics_view(m: TripMetrics) -> (int, int, int) {
    (m.total_time as int, m.total_cost as int, m.total_hassle_units as int)
}

pub open spec fn result_view(r: Result<TripMetrics, ConstraintViolation>) -> Result<
    (int, int, int),
    ConstraintViolation,
> {
    match r {
        Ok(m) => Ok(metrics_view(m)),
        Err(v) => Err(v),
    }
}

proof fn lemma_violation_persists(p: Seq<Edge>, origin: Location, k: int)
    requires
        0 <= k <= p.len(),
        bike_state(p.take(k), origin) is Err,
    ensures
        bike_state(p, origin) == bike_state(p.take(k), origin),
    decreases p.len(),
{
    if k == p.len() {
        assert(p.take(k) =~= p);
    } else {
        assert(p.drop_last().take(k) =~= p.take(k));
        lemma_violation_persists(p.drop_last(), origin, k);
    }
}

/// Sum of all edges' fares, as if each were charged.
pub open spec fn cost_sum(p: Seq<Edge>) -> int
    decreases p.len(),
{
    if p.len() == 0 {
        0
    } else {
        cost_sum(p.drop_last()) + p.last().cost
    }
}

proof fn lemma_bike_held(p: Seq<Edge>, origin: Location)
    requires
        p.len() > 0,
        p[0].transportation == Transportation::PersonalBike,
    ensures
        bike_state(p, origin) == Ok::<bool, ConstraintViolation>(true) || bike_state(p, origin) == Err::<
            bool,
            ConstraintViolation,
        >(ConstraintViolation::BikeForbidden),
    decreases p.len(),
{
    if p.len() > 1 {
        assert(p.drop_last()[0] == p[0]);
        lemma_bike_held(p.drop_last(), origin);
    } else {
        assert(p.drop_last().len() == 0);
        assert(bike_state(p.drop_last(), origin) == Ok::<bool, ConstraintViolation>(false));
        assert(p.last() == p[0]);
    }
}

/// A trip whose first edge rides the personal bike from the origin picks the
/// bike up: later bike edges are then legal, wherever they start.
pub proof fn lemma_bike_from_origin_stays_legal(p: Seq<Edge>, origin: Location)
    requires
        p.len() > 0,
        p[0].transportation == Transportation::PersonalBike,
    ensures
        evaluation(p, origin) != Err::<(int, int, int), ConstraintViolation>(ConstraintViolation::BikeUnavailable),
{
    lemma_bike_held(p, origin);
}

proof fn lemma_no_bike_before(p: Seq<Edge>, origin: Location)
    requires
        forall|k: int| 0 <= k < p.len() ==> p[k].transportation != Transportation::PersonalBike,
    ensures
        bike_state(p, origin) == Ok::<bool, ConstraintViolation>(false),
    decreases p.len(),
{
    if p.len() > 0 {
        lemma_no_bike_before(p.drop_last(), origin);
    }
}

/// A trip that first rides the personal bike on an edge that does not start
/// at the origin is rejected: the bike is unavailable.
pub proof fn lemma_bike_unavailable_away_from_origin(p: Seq<Edge>, origin: Location, i: int)
    requires
        0 <= i < p.len(),
        p[i].transportation == Transportation::PersonalBike,
        location_after(p.take(i), origin) != origin,
        forall|k: int| 0 <= k < i ==> p[k].transportation != Transportation::PersonalBike,
    ensures
        evaluation(p, origin) == Err::<(int, int, int), ConstraintViolation>(ConstraintViolation::BikeUnavailable),
{
    lemma_no_bike_before(p.take(i), origin);
    assert(p.take(i + 1).drop_last() =~= p.take(i));
    lemma_violation_persists(p, origin, i + 1);
}

/// A trip that picks the personal bike up on its first edge and later boards
/// the Acela is rejected: the bike is not allowed on that service.
pub proof fn lemma_bike_forbidden_on_acela(p: Seq<Edge>, origin: Location, i: int)
    requires
        0 < i < p.len(),
        p[0].transportation == Transportation::PersonalBike,
        p[i].transportation == Transportation::AmtrakAcela,
    ensures
        evaluation(p, origin) == Err::<(int, int, int), ConstraintViolation>(ConstraintViolation::BikeForbidden),
{
    lemma_bike_held(p.take(i), origin);
    assert(p.take(i + 1).drop_last() =~= p.take(i));
    lemma_bike_held(p.take(i + 1), origin);
    lemma_violation_persists(p, origin, i + 1);
}

/// A trip that never uses the personal bike breaks no rule: it is accepted.
pub proof fn lemma_no_bike_accepted(p: Seq<Edge>, origin: Location)
    requires
        forall|k: int| 0 <= k < p.len() ==> p[k].transportation != Transportation::PersonalBike,
    ensures
        evaluation(p, origin) is Ok,
{
    lemma_no_bike_before(p, origin);
}

/// Consecutive edges of one mode pay one fare: that of the first edge.
pub proof fn lemma_same_mode_one_fare(p: Seq<Edge>)
    requires
        p.len() > 0,
        forall|k: int| 0 <= k < p.len() ==> (#[trigger] p[k]).transportation == p[0].transportation,
    ensures
        fare_sum(p) == p[0].cost,
    decreases p.len(),
{
    if p.len() > 1 {
        let q = p.drop_last();
        assert forall|k: int| 0 <= k < q.len() implies (#[trigger] q[k]).transportation == q[0].transportation by {
            assert(q[k] == p[k]);
        }
        lemma_same_mode_one_fare(q);
        assert(p[p.len() - 1].transportation == p[0].transportation);
        assert(p[p.len() - 2].transportation == p[0].transportation);
        assert(!charged(p, p.len() - 1));
    } else {
        assert(p.drop_last().len() == 0);
        assert(fare_sum(p.drop_last()) == 0);
        assert(charged(p, 0));
    }
}

/// Where every edge changes mode, every edge's fare is charged.
pub proof fn lemma_alternating_modes_all_fares(p: Seq<Edge>)
    requires
        forall|k: int| 0 < k < p.len() ==> (#[trigger] p[k]).transportation != p[k - 1].transportation,
    ensures
        fare_sum(p) == cost_sum(p),
    decreases p.len(),
{
    if p.len() > 0 {
        let q = p.drop_last();
        assert forall|k: int| 0 < k < q.len() implies (#[trigger] q[k]).transportation != q[k - 1].transportation by {
            assert(q[k] == p[k] && q[k - 1] == p[k - 1]);
        }
        lemma_alternating_modes_all_fares(q);
        if p.len() > 1 {
            assert(p[p.len() - 1].transportation != p[p.len() - 2].transportation);
        }
    }
}

/// Walks `path` from `origin` under the mode-transition rules and, where it
/// is legal, totals its time, cost and hassle units.
pub fn calculate(path: &Vec<Edge>, origin: Location) -> (r: Result<TripMetrics, ConstraintViolation>)
    requires
        path@.len() <= MAX_PATH_LEN,
    ensures
        result_view(r) == evaluation(path@, origin),
{
    let ghost p = path@;
    let mut has_bike = false;
    let mut current_mode: Option<Transportation> = None;
    let mut current_location = origin;
    let mut total_time: u64 = 0;
    let mut total_wait_time: u64 = 0;
    let mut total_cost: u64 = 0;
    let mut total_hassle_units: i64 = 0;
    let mut i: usize = 0;
    while i < path.len()
        invariant
            p == path@,
            p.len() <= MAX_PATH_LEN,
            0 <= i <= p.len(),
            bike_state(p.take(i as int), origin) == Ok::<bool, ConstraintViolation>(has_bike),
            current_location == location_after(p.take(i as int), origin),
            i == 0 ==> current_mode is None,
            i > 0 ==> current_mode == Some(p[i - 1].transportation),
            total_time == time_sum(p.take(i as int)),
            total_wait_time == wait_sum(p.take(i as int)),
            total_cost == fare_sum(p.take(i as int)),
            total_hassle_units == hassle_sum(p.take(i as int)),
            total_time <= i * 8589934590,
            total_wait_time <= i * 4294967295,
            total_cost <= i * 4294967295,
            -(i * 2147483648) <= total_hassle_units <= i * 2147483647,
        decreases p.len() - i,
    {
        let edge = &path[i];
        let ghost q = p.take(i + 1);
        assert(q.drop_last() =~= p.take(i as int));
        assert(q.last() == p[i as int]);
        let bike = edge.transportation == Transportation::PersonalBike;
        let at_origin = current_location == origin;
        if bike && !has_bike && !at_origin {
            proof {
                lemma_violation_persists(p, origin, i + 1);
            }
            return Err(ConstraintViolation::BikeUnavailable);
        }
        if bike && at_origin {
            has_bike = true;
        }
        if edge.transportation == Transportation::AmtrakAcela && has_bike {
            proof {
                lemma_violation_persists(p, origin, i + 1);
            }
            return Err(ConstraintViolation::BikeForbidden);
        }
        let fresh = match current_mode {
            None => true,
            Some(m) => m != edge.transportation,
        };
        if fresh {
            total_cost = total_cost + edge.cost as u64;
        }
        total_time = total_time + edge.total_time();
        total_wait_time = total_wait_time + edge.wait_time as u64;
        total_hassle_units = total_hassle_units + edge.hassle_units as i64;
        current_mode = Some(edge.transportation);
        current_location = edge.destination;
        i += 1;
    }
    assert(p.take(i as int) =~= p);
    if total_wait_time > 0 && total_wait_time <= 15 {
        total_hassle_units = total_hassle_units + 1;
    }
    if total_wait_time >= 16 && total_wait_time <= 60 {
        total_hassle_units = total_hassle_units + 3;
    }
    Ok(TripMetrics { total_time, total_cost, total_hassle_units })
}

} // verus!
