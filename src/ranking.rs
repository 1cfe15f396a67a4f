use vstd::prelude::*;
use vstd::seq_lib::{to_multiset_contains, to_multiset_insert, to_multiset_remove};
use crate::network::{Edge, Location};
use crate::paths::paths_view;
use crate::trip::{calculate, evaluation, metrics_view, TripMetrics, MAX_PATH_LEN};

verus! {

/// An accepted trip: its edges and its metrics.
#[derive(Debug, Clone)]
pub struct Trip {
    pub edges: Vec<Edge>,
    pub metrics: TripMetrics,
}

/// The metric that orders trips.
#[derive(Debug, Clone, Copy, PartialEq, Eq, Structural)]
pub enum RankKey {
    Time,
    Cost,
    Hassle,
}

/// A trip as edges and (time, cost, hassle units).
pub type TripView = (Seq<Edge>, (int, int, int));

pub open spec fn trip_view(t: Trip) -> TripView {
    (t.edges@, metrics_view(t.metrics))
}

pub open spec fn trips_view(ts: Seq<Trip>) -> Seq<TripView> {
    ts.map_values(|t: Trip| trip_view(t))
}

pub open spec fn key_of(m: (int, int, int), key: RankKey) -> int {
    match key {
        RankKey::Time => m.0,
        RankKey::Cost => m.1,
        RankKey::Hassle => m.2,
    }
}

/// Ascending by the chosen metric.
pub open spec fn sorted_by(s: Seq<TripView>, key: RankKey) -> bool {
    forall|i: int, j: int| 0 <= i < j < s.len() ==> key_of(s[i].1, key) <= key_of(s[j].1, key)
}

/// The paths that evaluate without a violation, in their order, each with
/// its metrics.
pub open spec fn accepted(paths: Seq<Seq<Edge>>, origin: Location) -> Seq<TripView>
    decreases paths.len(),
{
    if paths.len() == 0 {
        seq![]
    } else {
        let rest = accepted(paths.drop_last(), origin);
        match evaluation(paths.last(), origin) {
            Ok(m) => rest.push((paths.last(), m)),
            Err(_) => rest,
        }
    }
}

pub open spec fn paths_fit(paths: Seq<Vec<Edge>>) -> bool {
    forall|i: int| 0 <= i < paths.len() ==> (#[trigger] paths[i])@.len() <= MAX_PATH_LEN
}

proof fn lemma_accepted_valid(paths: Seq<Seq<Edge>>, origin: Location)
    ensures
        forall|x: TripView|
            #[trigger] accepted(paths, origin).contains(x) ==> paths.contains(x.0) && evaluation(x.0, origin)
                == Ok::<(int, int, int), crate::trip::ConstraintViolation>(x.1),
    decreases paths.len(),
{
    if paths.len() > 0 {
        let q = paths.drop_last();
        lemma_accepted_valid(q, origin);
        assert forall|x: TripView| #[trigger] accepted(paths, origin).contains(x) implies paths.contains(x.0)
            && evaluation(x.0, origin) == Ok::<(int, int, int), crate::trip::ConstraintViolation>(x.1) by {
            let rest = accepted(q, origin);
            if rest.contains(x) {
                let k = choose|k: int| 0 <= k < q.len() && q[k] == x.0;
                assert(paths[k] == x.0);
            } else {
                assert(paths[paths.len() - 1] == x.0);
            }
        }
    }
}

/// Ranking keeps exactly the legal trips: each retained trip is one of the
/// paths with the metrics its evaluation gives, and sorting the ranked trips
/// again, by any key, keeps the same trips.
pub proof fn lemma_ranking_keeps_legal_trips(
    paths: Seq<Seq<Edge>>,
    origin: Location,
    ranked: Seq<TripView>,
    resorted: Seq<TripView>,
)
    requires
        sorted_by(ranked, RankKey::Time),
        ranked.to_multiset() == accepted(paths, origin).to_multiset(),
        resorted.to_multiset() == ranked.to_multiset(),
    ensures
        resorted.len() == ranked.len(),
        forall|x: TripView| #[trigger] resorted.contains(x) <==> ranked.contains(x),
        forall|x: TripView|
            #[trigger] ranked.contains(x) ==> paths.contains(x.0) && evaluation(x.0, origin) == Ok::<
                (int, int, int),
                crate::trip::ConstraintViolation,
            >(x.1),
{
    vstd::seq_lib::to_multiset_len(resorted);
    vstd::seq_lib::to_multiset_len(ranked);
    lemma_accepted_valid(paths, origin);
    assert forall|x: TripView| #[trigger] resorted.contains(x) <==> ranked.contains(x) by {
        to_multiset_contains(resorted, x);
        to_multiset_contains(ranked, x);
    }
    assert forall|x: TripView| #[trigger] ranked.contains(x) implies paths.contains(x.0) && evaluation(x.0, origin)
        == Ok::<(int, int, int), crate::trip::ConstraintViolation>(x.1) by {
        to_multiset_contains(ranked, x);
        to_multiset_contains(accepted(paths, origin), x);
    }
}

/// Evaluates each path from `origin` and keeps those that are legal trips.
pub fn accepted_trips(paths: &Vec<Vec<Edge>>, origin: Location) -> (r: Vec<Trip>)
    requires
        paths_fit(paths@),
    ensures
        trips_view(r@) == accepted(paths_view(paths@), origin),
{
    let mut trips: Vec<Trip> = Vec::new();
    let mut i: usize = 0;
    while i < paths.len()
        invariant
            paths_fit(paths@),
            0 <= i <= paths@.len(),
            trips_view(trips@) == accepted(paths_view(paths@).take(i as int), origin),
        decreases paths@.len() - i,
    {
        let ghost ps = paths_view(paths@).take(i + 1);
        assert(ps.drop_last() =~= paths_view(paths@).take(i as int));
        assert(ps.last() == paths@[i as int]@);
        let path = &paths[i];
        match calculate(path, origin) {
            Ok(metrics) => {
                let edges = path.clone();
                assert(edges@ =~= path@);
                let ghost before = trips@;
                trips.push(Trip { edges, metrics });
                assert(trips_view(trips@) =~= trips_view(before).push(trip_view(trips@.last())));
            },
            Err(_) => {},
        }
        i += 1;
    }
    assert(paths_view(paths@).take(i as int) =~= paths_view(paths@));
    trips
}

fn key_greater(a: &TripMetrics, b: &TripMetrics, key: RankKey) -> (r: bool)
    ensures
        r == (key_of(metrics_view(*a), key) > key_of(metrics_view(*b), key)),
{
    match key {
        RankKey::Time => a.total_time > b.total_time,
        RankKey::Cost => a.total_cost > b.total_cost,
        RankKey::Hassle => a.total_hassle_units > b.total_hassle_units,
    }
}

/// Orders `trips` ascending by `key`, keeping the same trips.
pub fn sort_trips(trips: &mut Vec<Trip>, key: RankKey)
    ensures
        sorted_by(trips_view(final(trips)@), key),
        trips_view(final(trips)@).to_multiset() == trips_view(old(trips)@).to_multiset(),
{
    let n = trips.len();
    let mut i: usize = 1;
    if n == 0 {
        return;
    }
    while i < n
        invariant
            1 <= i <= n,
            n == trips@.len(),
            sorted_by(trips_view(trips@).take(i as int), key),
            trips_view(trips@).to_multiset() == trips_view(old(trips)@).to_multiset(),
        decreases n - i,
    {
        let ghost s0 = trips_view(trips@);
        let x = trips.remove(i);
        let ghost s1 = trips_view(trips@);
        assert(s1 =~= s0.remove(i as int));
        let mut j: usize = 0;
        while j < i && !key_greater(&trips[j].metrics, &x.metrics, key)
            invariant
                0 <= j <= i,
                i < n,
                trips@.len() == n - 1,
                s1 == trips_view(trips@),
                forall|k: int| 0 <= k < j ==> key_of(s1[k].1, key) <= key_of(metrics_view(x.metrics), key),
            decreases i - j,
        {
            j += 1;
        }
        let ghost xv = trip_view(x);
        trips.insert(j, x);
        let ghost s2 = trips_view(trips@);
        assert(s2 =~= s1.insert(j as int, xv));
        proof {
            to_multiset_remove(s0, i as int);
            to_multiset_insert(s1, j as int, xv);
            assert(s0[i as int] == xv);
            assert(s0.to_multiset().remove(xv).insert(xv) =~= s0.to_multiset()) by {
                broadcast use vstd::multiset::group_multiset_axioms;
                assert(s0.contains(xv));
                vstd::seq_lib::to_multiset_contains(s0, xv);
            }
            assert forall|a: int, b: int| 0 <= a < b < i + 1 implies key_of(s2[a].1, key) <= key_of(s2[b].1, key) by {
                assert(s1.take(i as int) == s0.take(i as int));
                if j < i {
                    assert(key_of(s1[j as int].1, key) > key_of(xv.1, key));
                }
                if a < j && b < j {
                    assert(s2[a] == s1[a] && s2[b] == s1[b]);
                } else if a < j && b == j {
                } else if a < j {
                    assert(s2[a] == s1[a] && s2[b] == s1[b - 1]);
                } else if a == j {
                    assert(s2[b] == s1[b - 1]);
                    assert(key_of(s1[j as int].1, key) <= key_of(s1[b - 1].1, key) || b - 1 == j);
                } else {
                    assert(s2[a] == s1[a - 1] && s2[b] == s1[b - 1]);
                }
            }
            assert(sorted_by(s2.take(i + 1), key));
        }
        i += 1;
    }
    assert(trips_view(trips@).take(n as int) =~= trips_view(trips@));
}

/// The legal trips among `paths`, ascending by `key`.
pub fn rank_trips(paths: &Vec<Vec<Edge>>, origin: Location, key: RankKey) -> (r: Vec<Trip>)
    requires
        paths_fit(paths@),
    ensures
        sorted_by(trips_view(r@), key),
        trips_view(r@).to_multiset() == accepted(paths_view(paths@), origin).to_multiset(),
{
    let mut trips = accepted_trips(paths, origin);
    sort_trips(&mut trips, key);
    trips
}

} // verus!
