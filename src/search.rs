use vstd::prelude::*;
use crate::network::{lemma_loc_index_injective, loc_index, Edge, Graph, Location, Transportation, LOCATION_COUNT};
use crate::paths::{is_route, lemma_route_extends, route_step, GraphIntegrityError};
use crate::trip::{location_after, time_sum, wait_sum};

verus! {

/// What the search settled for one location: its cumulative time and wait
/// time from the origin, and the location and mode it was reached from.
#[derive(Debug, Clone, Copy, PartialEq, Eq, Structural)]
pub struct SearchLabel {
    pub time: u64,
    pub wait_time: u64,
    pub predecessor: Option<Location>,
    pub mode: Option<Transportation>,
}

/// The labels of one search, indexed by `Location::index`; `None` where the
/// location was not settled. Owned by the search, so the graph is untouched.
#[derive(Debug, Clone)]
pub struct ShortestTimes {
    pub labels: Vec<Option<SearchLabel>>,
}

impl ShortestTimes {
    /// The label settled for `l`, if any.
    pub fn label(&self, l: Location) -> (r: Option<SearchLabel>)
        requires
            self.labels@.len() == LOCATION_COUNT,
        ensures
            r == label_at(self.labels@, l),
    {
        self.labels[l.index()]
    }

    /// The least cumulative time found to `l`; `None` where `l` was not
    /// settled (unreachable, or the search stopped before it).
    pub fn time_to(&self, l: Location) -> (r: Option<u64>)
        requires
            self.labels@.len() == LOCATION_COUNT,
        ensures
            r is Some <==> label_at(self.labels@, l) is Some,
            r is Some ==> r->Some_0 == label_at(self.labels@, l)->Some_0.time,
    {
        match self.labels[l.index()] {
            Some(lb) => Some(lb.time),
            None => None,
        }
    }
}

/// A queued candidate: edge `index` of `from`'s adjacency, reaching its
/// destination at cumulative time `time`.
#[derive(Debug, Clone, Copy, PartialEq, Eq, Structural)]
struct QueueEntry {
    time: u64,
    from: Location,
    index: usize,
    edge: Edge,
}

/// Bound on one settled time per settled location, which keeps sums in `u64`.
pub const STEP_BOUND: u64 = 17179869184;

/// The label of `l` in a slot table.
pub open spec fn label_at(labels: Seq<Option<SearchLabel>>, l: Location) -> Option<SearchLabel> {
    labels[loc_index(l)]
}

/// The origin's label: time zero, reached from nowhere.
pub open spec fn origin_label() -> SearchLabel {
    SearchLabel { time: 0, wait_time: 0, predecessor: None, mode: None }
}

/// Number of locations not settled.
pub open spec fn unsettled(s: Seq<Option<SearchLabel>>) -> nat {
    (if s[0] is Some { 0nat } else { 1nat }) + (if s[1] is Some { 0nat } else { 1nat }) + (if s[2] is Some {
        0nat
    } else {
        1nat
    }) + (if s[3] is Some { 0nat } else { 1nat }) + (if s[4] is Some { 0nat } else { 1nat }) + (if s[5] is Some {
        0nat
    } else {
        1nat
    })
}

/// Edge `j` of `p` reaches `l` and accounts for `l`'s label from `p`'s.
pub open spec fn arrives_over(
    g: Map<Location, Seq<Edge>>,
    labels: Seq<Option<SearchLabel>>,
    l: Location,
    p: Location,
    j: int,
) -> bool {
    let lb = label_at(labels, l)->Some_0;
    let pb = label_at(labels, p)->Some_0;
    &&& label_at(labels, p) is Some
    &&& g.contains_key(p)
    &&& 0 <= j < g[p].len()
    &&& g[p][j].destination == l
    &&& lb.mode == Some(g[p][j].transportation)
    &&& lb.time == pb.time + g[p][j].total_time()
    &&& lb.wait_time == pb.wait_time + g[p][j].wait_time
}

/// The origin is settled at time zero, and every other settled location has
/// a vertex and was reached over an edge of its settled predecessor.
pub open spec fn labels_sound(
    g: Map<Location, Seq<Edge>>,
    labels: Seq<Option<SearchLabel>>,
    origin: Location,
) -> bool {
    &&& labels.len() == LOCATION_COUNT
    &&& label_at(labels, origin) == Some(origin_label())
    &&& forall|l: Location|
        l != origin && (#[trigger] label_at(labels, l)) is Some ==> {
            &&& g.contains_key(l)
            &&& label_at(labels, l)->Some_0.predecessor is Some
            &&& exists|j: int| arrives_over(g, labels, l, label_at(labels, l)->Some_0.predecessor->Some_0, j)
        }
}

/// `p` is a route from `origin` to `l` whose time and wait time are those
/// of `lb`.
pub open spec fn reached_by(g: Map<Location, Seq<Edge>>, origin: Location, p: Seq<Edge>, l: Location, lb: SearchLabel) -> bool {
    &&& is_route(g, origin, p)
    &&& location_after(p, origin) == l
    &&& time_sum(p) == lb.time
    &&& wait_sum(p) == lb.wait_time
}

/// Every settled label is the time and wait time of a route from the origin.
pub open spec fn labels_reached(g: Map<Location, Seq<Edge>>, labels: Seq<Option<SearchLabel>>, origin: Location) -> bool {
    forall|l: Location|
        (#[trigger] label_at(labels, l)) is Some ==> exists|p: Seq<Edge>| reached_by(g, origin, p, l, label_at(labels, l)->Some_0)
}

/// Once the target is settled, no settled time exceeds the target's.
pub open spec fn stopped_at(labels: Seq<Option<SearchLabel>>, target: Location) -> bool {
    label_at(labels, target) is Some ==> forall|l: Location|
        (#[trigger] label_at(labels, l)) is Some ==> label_at(labels, l)->Some_0.time <= label_at(labels, target)->Some_0.time
}

/// No settled location has a shorter route from the origin than its label.
pub open spec fn labels_optimal(
    g: Map<Location, Seq<Edge>>,
    labels: Seq<Option<SearchLabel>>,
    origin: Location,
) -> bool {
    forall|l: Location, p: Seq<Edge>|
        #![trigger label_at(labels, l), is_route(g, origin, p)]
        label_at(labels, l) is Some && is_route(g, origin, p) && location_after(p, origin) == l
            ==> label_at(labels, l)->Some_0.time <= time_sum(p)
}

/// No edge leaves the settled locations: whatever is not settled cannot be
/// reached from them.
pub open spec fn labels_closed(g: Map<Location, Seq<Edge>>, labels: Seq<Option<SearchLabel>>) -> bool {
    forall|l: Location, j: int|
        label_at(labels, l) is Some && g.contains_key(l) && 0 <= j < g[l].len() ==> (
        #[trigger] label_at(labels, g[l][j].destination)) is Some
}

/// A queued entry is edge `index` of its settled source, keyed by the
/// source's time plus the edge's total time.
spec fn entry_ok(g: Map<Location, Seq<Edge>>, labels: Seq<Option<SearchLabel>>, e: QueueEntry) -> bool {
    &&& label_at(labels, e.from) is Some
    &&& g.contains_key(e.from)
    &&& e.index < g[e.from].len()
    &&& g[e.from][e.index as int] == e.edge
    &&& e.time == label_at(labels, e.from)->Some_0.time + e.edge.total_time()
}

/// The entries that queueing the edges `es` of `from` at time `base` adds.
spec fn entries_of(from: Location, es: Seq<Edge>, base: u64) -> Seq<QueueEntry> {
    Seq::new(
        es.len(),
        |j: int| QueueEntry { time: (base + es[j].total_time()) as u64, from, index: j as usize, edge: es[j] },
    )
}

/// Queues every edge of `es`, as edges of `from` reached at time `base`.
fn push_edges(queue: &mut Vec<QueueEntry>, from: Location, es: &Vec<Edge>, base: u64)
    requires
        base <= 6 * STEP_BOUND,
    ensures
        final(queue)@ == old(queue)@ + entries_of(from, es@, base),
        es@.len() <= usize::MAX,
{
    let mut j: usize = 0;
    assert(old(queue)@ =~= old(queue)@ + entries_of(from, es@.take(0), base));
    while j < es.len()
        invariant
            base <= 6 * STEP_BOUND,
            0 <= j <= es@.len(),
            queue@ == old(queue)@ + entries_of(from, es@.take(j as int), base),
        decreases es@.len() - j,
    {
        let edge = es[j];
        queue.push(QueueEntry { time: base + edge.total_time(), from, index: j, edge });
        assert(entries_of(from, es@.take(j + 1), base) =~= entries_of(from, es@.take(j as int), base).push(
            QueueEntry { time: (base + edge.total_time()) as u64, from, index: j, edge },
        ));
        j += 1;
    }
    assert(es@.take(j as int) =~= es@);
}

/// Position of an entry with the least time (the first such).
fn min_entry(queue: &Vec<QueueEntry>) -> (m: usize)
    requires
        queue@.len() > 0,
    ensures
        m < queue@.len(),
        forall|k: int| 0 <= k < queue@.len() ==> queue@[m as int].time <= queue@[k].time,
{
    let mut m: usize = 0;
    let mut i: usize = 1;
    while i < queue.len()
        invariant
            0 <= m < i <= queue@.len(),
            forall|k: int| 0 <= k < i ==> queue@[m as int].time <= queue@[k].time,
        decreases queue@.len() - i,
    {
        if queue[i].time < queue[m].time {
            m = i;
        }
        i += 1;
    }
    m
}

/// Every edge from a settled location to an unsettled one has an entry
/// towards that location in the queue.
spec fn covered(g: Map<Location, Seq<Edge>>, labels: Seq<Option<SearchLabel>>, queue: Seq<QueueEntry>) -> bool {
    forall|l: Location, j: int|
        label_at(labels, l) is Some && g.contains_key(l) && 0 <= j < g[l].len() && (#[trigger] label_at(
            labels,
            g[l][j].destination,
        )) is None ==> exists|k: int| 0 <= k < queue.len() && #[trigger] queue[k].edge.destination == g[l][j].destination
}

/// Settled times grow by at most `STEP_BOUND` per settled location.
spec fn times_bounded(labels: Seq<Option<SearchLabel>>) -> bool {
    forall|l: Location|
        (#[trigger] label_at(labels, l)) is Some ==> {
            &&& label_at(labels, l)->Some_0.time <= (6 - unsettled(labels)) * STEP_BOUND
            &&& label_at(labels, l)->Some_0.wait_time <= (6 - unsettled(labels)) * STEP_BOUND
        }
}

/// No settled time exceeds a queued key.
spec fn ordered(labels: Seq<Option<SearchLabel>>, queue: Seq<QueueEntry>) -> bool {
    forall|l: Location, k: int|
        label_at(labels, l) is Some && 0 <= k < queue.len() ==> (#[trigger] label_at(labels, l))->Some_0.time
            <= (#[trigger] queue[k]).time
}

/// Each edge out of a settled location is relaxed, or still queued.
spec fn relaxed(g: Map<Location, Seq<Edge>>, labels: Seq<Option<SearchLabel>>, queue: Seq<QueueEntry>) -> bool {
    forall|u: Location, j: int|
        label_at(labels, u) is Some && g.contains_key(u) && 0 <= j < g[u].len() ==> {
            ||| (label_at(labels, (#[trigger] g[u][j]).destination) is Some && label_at(
                labels,
                g[u][j].destination,
            )->Some_0.time <= label_at(labels, u)->Some_0.time + g[u][j].total_time())
            ||| exists|k: int| 0 <= k < queue.len() && (#[trigger] queue[k]).from == u && queue[k].index == j
        }
}

spec fn base_inv(
    g: Map<Location, Seq<Edge>>,
    labels: Seq<Option<SearchLabel>>,
    queue: Seq<QueueEntry>,
    origin: Location,
) -> bool {
    &&& labels_sound(g, labels, origin)
    &&& times_bounded(labels)
    &&& forall|k: int| 0 <= k < queue.len() ==> entry_ok(g, labels, #[trigger] queue[k])
    &&& covered(g, labels, queue)
}

spec fn search_inv(
    g: Map<Location, Seq<Edge>>,
    labels: Seq<Option<SearchLabel>>,
    queue: Seq<QueueEntry>,
    origin: Location,
) -> bool {
    &&& base_inv(g, labels, queue, origin)
    &&& ordered(labels, queue)
    &&& relaxed(g, labels, queue)
}

proof fn lemma_unsettled_drop(labels: Seq<Option<SearchLabel>>, d: Location, x: SearchLabel)
    requires
        labels.len() == LOCATION_COUNT,
        label_at(labels, d) is None,
    ensures
        unsettled(labels) >= 1,
        unsettled(labels.update(loc_index(d), Some(x))) + 1 == unsettled(labels),
{
    match d {
        Location::Home => {},
        Location::BAL => {},
        Location::WAS => {},
        Location::NCR => {},
        Location::ROS => {},
        Location::ARL => {},
    }
}

proof fn lemma_discard(
    g: Map<Location, Seq<Edge>>,
    labels: Seq<Option<SearchLabel>>,
    q0: Seq<QueueEntry>,
    m: int,
    origin: Location,
)
    requires
        base_inv(g, labels, q0, origin),
        0 <= m < q0.len(),
        label_at(labels, q0[m].edge.destination) is Some,
    ensures
        base_inv(g, labels, q0.remove(m), origin),
{
    let queue = q0.remove(m);
    let d = q0[m].edge.destination;
    assert forall|l: Location, j: int|
        label_at(labels, l) is Some && g.contains_key(l) && 0 <= j < g[l].len() && (#[trigger] label_at(
            labels,
            g[l][j].destination,
        )) is None implies exists|k: int| 0 <= k < queue.len() && #[trigger] queue[k].edge.destination == g[l][j].destination by {
        let k = choose|k: int| 0 <= k < q0.len() && #[trigger] q0[k].edge.destination == g[l][j].destination;
        if k < m {
            assert(queue[k] == q0[k]);
        } else {
            assert(queue[k - 1] == q0[k]);
        }
    }
    assert forall|k: int| 0 <= k < queue.len() implies entry_ok(g, labels, #[trigger] queue[k]) by {
        if k < m {
            assert(queue[k] == q0[k]);
        } else {
            assert(queue[k] == q0[k + 1]);
        }
    }
}

proof fn lemma_settle_labels(
    g: Map<Location, Seq<Edge>>,
    labels: Seq<Option<SearchLabel>>,
    e: QueueEntry,
    origin: Location,
    lb: SearchLabel,
)
    requires
        labels_sound(g, labels, origin),
        times_bounded(labels),
        entry_ok(g, labels, e),
        label_at(labels, e.edge.destination) is None,
        g.contains_key(e.edge.destination),
        lb == (SearchLabel {
            time: e.time,
            wait_time: (label_at(labels, e.from)->Some_0.wait_time + e.edge.wait_time) as u64,
            predecessor: Some(e.from),
            mode: Some(e.edge.transportation),
        }),
    ensures
        labels_sound(g, labels.update(loc_index(e.edge.destination), Some(lb)), origin),
        times_bounded(labels.update(loc_index(e.edge.destination), Some(lb))),
        forall|l: Location|
            l != e.edge.destination ==> #[trigger] label_at(labels.update(loc_index(e.edge.destination), Some(lb)), l)
                == label_at(labels, l),
{
    let d = e.edge.destination;
    let labels2 = labels.update(loc_index(d), Some(lb));
    assert(label_at(labels, e.from) is Some);
    lemma_unsettled_drop(labels, d, lb);
    lemma_loc_index_injective(d, e.from);
    lemma_loc_index_injective(d, origin);
    assert forall|l: Location| l != d implies #[trigger] label_at(labels2, l) == label_at(labels, l) by {
        lemma_loc_index_injective(l, d);
    }
    assert(label_at(labels2, d) == Some(lb));
    assert(arrives_over(g, labels2, d, e.from, e.index as int));
    assert forall|l: Location|
        l != origin && (#[trigger] label_at(labels2, l)) is Some implies {
            &&& g.contains_key(l)
            &&& label_at(labels2, l)->Some_0.predecessor is Some
            &&& exists|j: int| arrives_over(g, labels2, l, label_at(labels2, l)->Some_0.predecessor->Some_0, j)
        } by {
        if l != d {
            assert(label_at(labels, l) is Some);
            let p = label_at(labels, l)->Some_0.predecessor->Some_0;
            let j = choose|j: int| arrives_over(g, labels, l, p, j);
            lemma_loc_index_injective(p, d);
            assert(arrives_over(g, labels2, l, p, j));
        }
    }
    assert forall|l: Location| (#[trigger] label_at(labels2, l)) is Some implies {
        &&& label_at(labels2, l)->Some_0.time <= (6 - unsettled(labels2)) * STEP_BOUND
        &&& label_at(labels2, l)->Some_0.wait_time <= (6 - unsettled(labels2)) * STEP_BOUND
    } by {
        if l != d {
            assert(label_at(labels, l) is Some);
        }
    }
}

proof fn lemma_settle_queue(
    g: Map<Location, Seq<Edge>>,
    labels: Seq<Option<SearchLabel>>,
    labels2: Seq<Option<SearchLabel>>,
    q0: Seq<QueueEntry>,
    m: int,
)
    requires
        labels.len() == LOCATION_COUNT,
        labels2.len() == LOCATION_COUNT,
        0 <= m < q0.len(),
        forall|k: int| 0 <= k < q0.len() ==> entry_ok(g, labels, #[trigger] q0[k]),
        covered(g, labels, q0),
        label_at(labels, q0[m].edge.destination) is None,
        g.contains_key(q0[m].edge.destination),
        label_at(labels2, q0[m].edge.destination)->Some_0.time == q0[m].time,
        label_at(labels2, q0[m].edge.destination) is Some,
        q0[m].time <= 6 * STEP_BOUND,
        g[q0[m].edge.destination].len() <= usize::MAX,
        forall|l: Location|
            l != q0[m].edge.destination ==> #[trigger] label_at(labels2, l) == label_at(labels, l),
    ensures
        ({
            let queue = q0.remove(m) + entries_of(q0[m].edge.destination, g[q0[m].edge.destination], q0[m].time);
            &&& forall|k: int| 0 <= k < queue.len() ==> entry_ok(g, labels2, #[trigger] queue[k])
            &&& covered(g, labels2, queue)
        }),
{
    let e = q0[m];
    let d = e.edge.destination;
    let q1 = q0.remove(m);
    let es = g[d];
    let queue = q1 + entries_of(d, es, e.time);
    assert forall|k: int| 0 <= k < queue.len() implies entry_ok(g, labels2, #[trigger] queue[k]) by {
        if k < q1.len() {
            if k < m {
                assert(queue[k] == q0[k]);
            } else {
                assert(queue[k] == q0[k + 1]);
            }
            assert(entry_ok(g, labels, queue[k]));
            lemma_loc_index_injective(queue[k].from, d);
            assert(label_at(labels, queue[k].from) is Some);
        } else {
            assert(queue[k] == entries_of(d, es, e.time)[k - q1.len()]);
        }
    }
    lemma_settle_coverage(g, labels, labels2, q0, m);
}

proof fn lemma_settle_coverage(
    g: Map<Location, Seq<Edge>>,
    labels: Seq<Option<SearchLabel>>,
    labels2: Seq<Option<SearchLabel>>,
    q0: Seq<QueueEntry>,
    m: int,
)
    requires
        labels.len() == LOCATION_COUNT,
        labels2.len() == LOCATION_COUNT,
        0 <= m < q0.len(),
        covered(g, labels, q0),
        g.contains_key(q0[m].edge.destination),
        g[q0[m].edge.destination].len() <= usize::MAX,
        label_at(labels, q0[m].edge.destination) is None,
        label_at(labels2, q0[m].edge.destination) is Some,
        forall|l: Location|
            l != q0[m].edge.destination ==> #[trigger] label_at(labels2, l) == label_at(labels, l),
    ensures
        covered(g, labels2, q0.remove(m) + entries_of(q0[m].edge.destination, g[q0[m].edge.destination], q0[m].time)),
{
    let e = q0[m];
    let d = e.edge.destination;
    let q1 = q0.remove(m);
    let es = g[d];
    let queue = q1 + entries_of(d, es, e.time);
    assert forall|l: Location, j: int|
        label_at(labels2, l) is Some && g.contains_key(l) && 0 <= j < g[l].len() && (#[trigger] label_at(
            labels2,
            g[l][j].destination,
        )) is None implies exists|k: int| 0 <= k < queue.len() && #[trigger] queue[k].edge.destination == g[l][j].destination by {
        if l == d {
            assert(queue[q1.len() + j] == entries_of(d, es, e.time)[j]);
            assert(queue[q1.len() + j].edge.destination == g[l][j].destination);
        } else {
            lemma_loc_index_injective(d, g[l][j].destination);
            assert(label_at(labels, l) is Some);
            assert(label_at(labels, g[l][j].destination) is None);
            let k = choose|k: int| 0 <= k < q0.len() && #[trigger] q0[k].edge.destination == g[l][j].destination;
            if k < m {
                assert(queue[k] == q0[k]);
            } else {
                assert(queue[k - 1] == q0[k]);
            }
        }
    }
}

proof fn lemma_discard_order(
    g: Map<Location, Seq<Edge>>,
    labels: Seq<Option<SearchLabel>>,
    q0: Seq<QueueEntry>,
    m: int,
)
    requires
        0 <= m < q0.len(),
        forall|k: int| 0 <= k < q0.len() ==> entry_ok(g, labels, #[trigger] q0[k]),
        ordered(labels, q0),
        relaxed(g, labels, q0),
        label_at(labels, q0[m].edge.destination) is Some,
    ensures
        ordered(labels, q0.remove(m)),
        relaxed(g, labels, q0.remove(m)),
{
    let queue = q0.remove(m);
    let e = q0[m];
    assert forall|l: Location, k: int| label_at(labels, l) is Some && 0 <= k < queue.len() implies (#[trigger] label_at(
        labels,
        l,
    ))->Some_0.time <= (#[trigger] queue[k]).time by {
        if k < m {
            assert(queue[k] == q0[k]);
        } else {
            assert(queue[k] == q0[k + 1]);
        }
    }
    assert(entry_ok(g, labels, e));
    assert forall|u: Location, j: int| label_at(labels, u) is Some && g.contains_key(u) && 0 <= j < g[u].len() implies {
        ||| (label_at(labels, (#[trigger] g[u][j]).destination) is Some && label_at(
            labels,
            g[u][j].destination,
        )->Some_0.time <= label_at(labels, u)->Some_0.time + g[u][j].total_time())
        ||| exists|k: int| 0 <= k < queue.len() && (#[trigger] queue[k]).from == u && queue[k].index == j
    } by {
        let v = g[u][j].destination;
        if !(label_at(labels, v) is Some && label_at(labels, v)->Some_0.time <= label_at(labels, u)->Some_0.time
            + g[u][j].total_time()) {
            let k = choose|k: int| 0 <= k < q0.len() && (#[trigger] q0[k]).from == u && q0[k].index == j;
            if k == m {
                assert(label_at(labels, e.edge.destination)->Some_0.time <= q0[m].time);
                assert(false);
            } else if k < m {
                assert(queue[k] == q0[k]);
            } else {
                assert(queue[k - 1] == q0[k]);
            }
        }
    }
}

proof fn lemma_settle_order(
    g: Map<Location, Seq<Edge>>,
    labels: Seq<Option<SearchLabel>>,
    labels2: Seq<Option<SearchLabel>>,
    q0: Seq<QueueEntry>,
    m: int,
)
    requires
        labels.len() == LOCATION_COUNT,
        0 <= m < q0.len(),
        forall|k: int| 0 <= k < q0.len() ==> entry_ok(g, labels, #[trigger] q0[k]),
        forall|k: int| 0 <= k < q0.len() ==> q0[m].time <= (#[trigger] q0[k]).time,
        ordered(labels, q0),
        relaxed(g, labels, q0),
        label_at(labels, q0[m].edge.destination) is None,
        g.contains_key(q0[m].edge.destination),
        g[q0[m].edge.destination].len() <= usize::MAX,
        q0[m].time <= 6 * STEP_BOUND,
        label_at(labels2, q0[m].edge.destination) is Some,
        label_at(labels2, q0[m].edge.destination)->Some_0.time == q0[m].time,
        forall|l: Location|
            l != q0[m].edge.destination ==> #[trigger] label_at(labels2, l) == label_at(labels, l),
    ensures
        ordered(labels2, q0.remove(m) + entries_of(q0[m].edge.destination, g[q0[m].edge.destination], q0[m].time)),
        relaxed(g, labels2, q0.remove(m) + entries_of(q0[m].edge.destination, g[q0[m].edge.destination], q0[m].time)),
{
    let e = q0[m];
    let d = e.edge.destination;
    let q1 = q0.remove(m);
    let es = g[d];
    let queue = q1 + entries_of(d, es, e.time);
    assert forall|l: Location, k: int| label_at(labels2, l) is Some && 0 <= k < queue.len() implies (#[trigger] label_at(
        labels2,
        l,
    ))->Some_0.time <= (#[trigger] queue[k]).time by {
        if k < q1.len() {
            if k < m {
                assert(queue[k] == q0[k]);
            } else {
                assert(queue[k] == q0[k + 1]);
            }
            if l != d {
                assert(label_at(labels, l) is Some);
            }
        } else {
            assert(queue[k] == entries_of(d, es, e.time)[k - q1.len()]);
            if l != d {
                assert(label_at(labels, l) is Some);
                assert(label_at(labels, l)->Some_0.time <= q0[m].time);
            }
        }
    }
    assert forall|u: Location, j: int| label_at(labels2, u) is Some && g.contains_key(u) && 0 <= j < g[u].len() implies {
        ||| (label_at(labels2, (#[trigger] g[u][j]).destination) is Some && label_at(
            labels2,
            g[u][j].destination,
        )->Some_0.time <= label_at(labels2, u)->Some_0.time + g[u][j].total_time())
        ||| exists|k: int| 0 <= k < queue.len() && (#[trigger] queue[k]).from == u && queue[k].index == j
    } by {
        let v = g[u][j].destination;
        if u == d {
            assert(queue[q1.len() + j] == entries_of(d, es, e.time)[j]);
            assert(queue[q1.len() + j].from == u && queue[q1.len() + j].index == j);
        } else {
            assert(label_at(labels, u) is Some);
            if label_at(labels, v) is Some && label_at(labels, v)->Some_0.time <= label_at(labels, u)->Some_0.time
                + g[u][j].total_time() {
                lemma_loc_index_injective(v, d);
            } else {
                let k = choose|k: int| 0 <= k < q0.len() && (#[trigger] q0[k]).from == u && q0[k].index == j;
                assert(entry_ok(g, labels, q0[k]));
                if k == m {
                    assert(label_at(labels2, v)->Some_0.time <= label_at(labels2, u)->Some_0.time
                        + g[u][j].total_time());
                } else if k < m {
                    assert(queue[k] == q0[k]);
                } else {
                    assert(queue[k - 1] == q0[k]);
                }
            }
        }
    }
}

proof fn lemma_route_prefix(g: Map<Location, Seq<Edge>>, origin: Location, p: Seq<Edge>)
    requires
        p.len() > 0,
        is_route(g, origin, p),
    ensures
        is_route(g, origin, p.drop_last()),
        g.contains_key(location_after(p.drop_last(), origin)),
        g[location_after(p.drop_last(), origin)].contains(p.last()),
{
    let q = p.drop_last();
    assert forall|i: int| 0 <= i < q.len() implies #[trigger] route_step(g, origin, q, i) by {
        assert(route_step(g, origin, p, i));
        assert(q.take(i) =~= p.take(i));
        assert(q[i] == p[i]);
    }
    let n = p.len() - 1;
    assert(route_step(g, origin, p, n));
    assert(p.take(n) =~= q);
    assert(p[n] == p.last());
}

proof fn lemma_relaxed_at(
    g: Map<Location, Seq<Edge>>,
    labels: Seq<Option<SearchLabel>>,
    queue: Seq<QueueEntry>,
    u: Location,
    j: int,
)
    requires
        forall|k: int| 0 <= k < queue.len() ==> entry_ok(g, labels, #[trigger] queue[k]),
        relaxed(g, labels, queue),
        label_at(labels, u) is Some,
        g.contains_key(u),
        0 <= j < g[u].len(),
    ensures
        (label_at(labels, g[u][j].destination) is Some && label_at(labels, g[u][j].destination)->Some_0.time
            <= label_at(labels, u)->Some_0.time + g[u][j].total_time()) || exists|k: int|
            0 <= k < queue.len() && (#[trigger] queue[k]).time == label_at(labels, u)->Some_0.time
                + g[u][j].total_time(),
{
    let e = g[u][j];
    if !(label_at(labels, e.destination) is Some && label_at(labels, e.destination)->Some_0.time <= label_at(labels, u)->Some_0.time
        + e.total_time()) {
        let k = choose|k: int| 0 <= k < queue.len() && (#[trigger] queue[k]).from == u && queue[k].index == j;
        assert(entry_ok(g, labels, queue[k]));
    }
}

/// Along a route, the settled time at its end is at most its time, or some
/// queued key is.
proof fn lemma_route_bound(
    g: Map<Location, Seq<Edge>>,
    labels: Seq<Option<SearchLabel>>,
    queue: Seq<QueueEntry>,
    origin: Location,
    p: Seq<Edge>,
)
    requires
        label_at(labels, origin) == Some(origin_label()),
        forall|k: int| 0 <= k < queue.len() ==> entry_ok(g, labels, #[trigger] queue[k]),
        relaxed(g, labels, queue),
        is_route(g, origin, p),
    ensures
        (label_at(labels, location_after(p, origin)) is Some && label_at(labels, location_after(p, origin))->Some_0.time
            <= time_sum(p)) || exists|k: int| 0 <= k < queue.len() && (#[trigger] queue[k]).time <= time_sum(p),
    decreases p.len(),
{
    if p.len() > 0 {
        let q = p.drop_last();
        lemma_route_prefix(g, origin, p);
        lemma_route_bound(g, labels, queue, origin, q);
        let u = location_after(q, origin);
        let e = p.last();
        assert(time_sum(p) == time_sum(q) + e.total_time());
        assert(location_after(p, origin) == e.destination);
        let j = choose|j: int| 0 <= j < g[u].len() && g[u][j] == e;
        if label_at(labels, u) is Some && label_at(labels, u)->Some_0.time <= time_sum(q) {
            lemma_relaxed_at(g, labels, queue, u, j);
            if !(label_at(labels, e.destination) is Some && label_at(labels, e.destination)->Some_0.time
                <= label_at(labels, u)->Some_0.time + e.total_time()) {
                let k = choose|k: int| 0 <= k < queue.len() && (#[trigger] queue[k]).time == label_at(labels, u)->Some_0.time
                    + g[u][j].total_time();
                assert(queue[k].time <= time_sum(p));
            }
        } else {
            let k = choose|k: int| 0 <= k < queue.len() && (#[trigger] queue[k]).time <= time_sum(q);
            assert(queue[k].time <= time_sum(p));
        }
    } else {
        assert(time_sum(p) == 0);
    }
}

proof fn lemma_settled_optimal(
    g: Map<Location, Seq<Edge>>,
    labels: Seq<Option<SearchLabel>>,
    queue: Seq<QueueEntry>,
    origin: Location,
)
    requires
        label_at(labels, origin) == Some(origin_label()),
        forall|k: int| 0 <= k < queue.len() ==> entry_ok(g, labels, #[trigger] queue[k]),
        ordered(labels, queue),
        relaxed(g, labels, queue),
    ensures
        labels_optimal(g, labels, origin),
{
    assert forall|l: Location, p: Seq<Edge>|
        #![trigger label_at(labels, l), is_route(g, origin, p)]
        label_at(labels, l) is Some && is_route(g, origin, p) && location_after(p, origin) == l implies label_at(
        labels,
        l,
    )->Some_0.time <= time_sum(p) by {
        lemma_route_bound(g, labels, queue, origin, p);
        if !(label_at(labels, location_after(p, origin)) is Some && label_at(labels, location_after(p, origin))->Some_0.time
            <= time_sum(p)) {
            let k = choose|k: int| 0 <= k < queue.len() && (#[trigger] queue[k]).time <= time_sum(p);
            assert(label_at(labels, l)->Some_0.time <= queue[k].time);
        }
    }
}

proof fn lemma_entry_route(
    g: Map<Location, Seq<Edge>>,
    labels: Seq<Option<SearchLabel>>,
    e: QueueEntry,
    origin: Location,
) -> (p: Seq<Edge>)
    requires
        labels_reached(g, labels, origin),
        entry_ok(g, labels, e),
    ensures
        is_route(g, origin, p),
        location_after(p, origin) == e.edge.destination,
        time_sum(p) == e.time,
        wait_sum(p) == label_at(labels, e.from)->Some_0.wait_time + e.edge.wait_time,
{
    let u = e.from;
    let pu = choose|pu: Seq<Edge>| reached_by(g, origin, pu, u, label_at(labels, u)->Some_0);
    assert(g[u][e.index as int] == e.edge);
    lemma_route_extends(g, origin, pu, e.edge);
    let p = pu.push(e.edge);
    assert(p.drop_last() =~= pu);
    p
}

proof fn lemma_settle_reached(
    g: Map<Location, Seq<Edge>>,
    labels: Seq<Option<SearchLabel>>,
    labels2: Seq<Option<SearchLabel>>,
    e: QueueEntry,
    origin: Location,
)
    requires
        labels_reached(g, labels, origin),
        entry_ok(g, labels, e),
        label_at(labels2, e.edge.destination) == Some(SearchLabel {
            time: e.time,
            wait_time: (label_at(labels, e.from)->Some_0.wait_time + e.edge.wait_time) as u64,
            predecessor: Some(e.from),
            mode: Some(e.edge.transportation),
        }),
        label_at(labels, e.from)->Some_0.wait_time + e.edge.wait_time <= u64::MAX,
        forall|l: Location| l != e.edge.destination ==> #[trigger] label_at(labels2, l) == label_at(labels, l),
    ensures
        labels_reached(g, labels2, origin),
{
    assert forall|l: Location| (#[trigger] label_at(labels2, l)) is Some implies exists|p: Seq<Edge>|
        reached_by(g, origin, p, l, label_at(labels2, l)->Some_0) by {
        if l == e.edge.destination {
            let p = lemma_entry_route(g, labels, e, origin);
            assert(reached_by(g, origin, p, l, label_at(labels2, l)->Some_0));
        } else {
            assert(label_at(labels, l) is Some);
        }
    }
}

proof fn lemma_settle_stops(
    labels: Seq<Option<SearchLabel>>,
    labels2: Seq<Option<SearchLabel>>,
    q0: Seq<QueueEntry>,
    m: int,
    target: Location,
)
    requires
        0 <= m < q0.len(),
        ordered(labels, q0),
        label_at(labels, target) is None,
        label_at(labels2, q0[m].edge.destination) is Some,
        label_at(labels2, q0[m].edge.destination)->Some_0.time == q0[m].time,
        forall|l: Location|
            l != q0[m].edge.destination ==> #[trigger] label_at(labels2, l) == label_at(labels, l),
    ensures
        stopped_at(labels2, target),
{
    let d = q0[m].edge.destination;
    if d == target {
        assert forall|l: Location| (#[trigger] label_at(labels2, l)) is Some implies label_at(labels2, l)->Some_0.time
            <= label_at(labels2, target)->Some_0.time by {
            if l != d {
                assert(label_at(labels, l) is Some);
                assert(label_at(labels, l)->Some_0.time <= q0[m].time);
            }
        }
    }
}

proof fn lemma_closed_route(
    g: Map<Location, Seq<Edge>>,
    labels: Seq<Option<SearchLabel>>,
    origin: Location,
    p: Seq<Edge>,
)
    requires
        label_at(labels, origin) is Some,
        labels_closed(g, labels),
        is_route(g, origin, p),
    ensures
        label_at(labels, location_after(p, origin)) is Some,
    decreases p.len(),
{
    if p.len() > 0 {
        lemma_route_prefix(g, origin, p);
        lemma_closed_route(g, labels, origin, p.drop_last());
        let u = location_after(p.drop_last(), origin);
        let j = choose|j: int| 0 <= j < g[u].len() && g[u][j] == p.last();
        assert(label_at(labels, g[u][j].destination) is Some);
    }
}

/// Two searches from `origin` for `target` on the same graph agree: both
/// reach the target or neither does, and where they do, at the same time.
pub proof fn lemma_search_repeatable(
    g: Map<Location, Seq<Edge>>,
    origin: Location,
    target: Location,
    a: Seq<Option<SearchLabel>>,
    b: Seq<Option<SearchLabel>>,
)
    requires
        labels_sound(g, a, origin),
        labels_optimal(g, a, origin),
        labels_reached(g, a, origin),
        label_at(a, target) is None ==> labels_closed(g, a),
        labels_sound(g, b, origin),
        labels_optimal(g, b, origin),
        labels_reached(g, b, origin),
        label_at(b, target) is None ==> labels_closed(g, b),
    ensures
        label_at(a, target) is Some <==> label_at(b, target) is Some,
        label_at(a, target) is Some ==> label_at(a, target)->Some_0.time == label_at(b, target)->Some_0.time,
{
    if label_at(a, target) is Some {
        let pa = choose|pa: Seq<Edge>| reached_by(g, origin, pa, target, label_at(a, target)->Some_0);
        if label_at(b, target) is None {
            lemma_closed_route(g, b, origin, pa);
        }
        let pb = choose|pb: Seq<Edge>| reached_by(g, origin, pb, target, label_at(b, target)->Some_0);
        assert(label_at(b, target)->Some_0.time <= time_sum(pa));
        assert(label_at(a, target)->Some_0.time <= time_sum(pb));
    } else if label_at(b, target) is Some {
        let pb = choose|pb: Seq<Edge>| reached_by(g, origin, pb, target, label_at(b, target)->Some_0);
        lemma_closed_route(g, a, origin, pb);
    }
}

/// Minimum-time search from `origin`, stopping once `target` is settled.
/// Settled locations and their labels are returned; the mode rules of trip
/// validation are not applied.
#[verifier::rlimit(40)]
pub fn dijkstra_time(graph: &Graph, origin: Location, target: Location) -> (r: Result<
    ShortestTimes,
    GraphIntegrityError,
>)
    requires
        graph.wf(),
    ensures
        match r {
            Ok(st) => {
                &&& labels_sound(graph@, st.labels@, origin)
                &&& labels_optimal(graph@, st.labels@, origin)
                &&& labels_reached(graph@, st.labels@, origin)
                &&& stopped_at(st.labels@, target)
                &&& origin != target ==> graph@.contains_key(origin)
                &&& label_at(st.labels@, target) is None ==> labels_closed(graph@, st.labels@)
            },
            Err(GraphIntegrityError::MissingVertex(l)) => {
                &&& !graph@.contains_key(l)
                &&& exists|p: Seq<Edge>| is_route(graph@, origin, p) && location_after(p, origin) == l
            },
        },
{
    let mut labels: Vec<Option<SearchLabel>> = Vec::new();
    let mut i: usize = 0;
    while i < LOCATION_COUNT
        invariant
            i <= LOCATION_COUNT,
            labels@.len() == i,
            forall|j: int| 0 <= j < i ==> labels@[j] is None,
        decreases LOCATION_COUNT - i,
    {
        labels.push(None);
        i += 1;
    }
    labels.set(origin.index(), Some(SearchLabel { time: 0, wait_time: 0, predecessor: None, mode: None }));
    proof {
        assert forall|l: Location| (#[trigger] label_at(labels@, l)) is Some implies l == origin by {
            lemma_loc_index_injective(l, origin);
        }
        lemma_unsettled_drop(labels@.update(loc_index(origin), None), origin, origin_label());
        assert(labels@.update(loc_index(origin), None).update(loc_index(origin), Some(origin_label())) =~= labels@);
        let empty = Seq::<Edge>::empty();
        assert(is_route(graph@, origin, empty));
        assert(reached_by(graph@, origin, empty, origin, origin_label()));
        assert forall|l: Location| (#[trigger] label_at(labels@, l)) is Some implies exists|p: Seq<Edge>|
            reached_by(graph@, origin, p, l, label_at(labels@, l)->Some_0) by {
            assert(reached_by(graph@, origin, empty, l, label_at(labels@, l)->Some_0));
        }
    }
    let mut queue: Vec<QueueEntry> = Vec::new();
    match graph.neighbors(origin) {
        Some(es) => {
            push_edges(&mut queue, origin, es, 0);
            proof {
                assert(queue@ =~= entries_of(origin, es@, 0));
                assert forall|l: Location, j: int|
                    label_at(labels@, l) is Some && graph@.contains_key(l) && 0 <= j < graph@[l].len()
                        && (#[trigger] label_at(labels@, graph@[l][j].destination)) is None implies exists|k: int|
                    0 <= k < queue@.len() && #[trigger] queue@[k].edge.destination == graph@[l][j].destination by {
                    assert(l == origin);
                    assert(queue@[j] == entries_of(origin, es@, 0)[j]);
                    assert(queue@[j].edge.destination == graph@[l][j].destination);
                }
                assert forall|k: int| 0 <= k < queue@.len() implies entry_ok(graph@, labels@, #[trigger] queue@[k]) by {
                    assert(queue@[k] == entries_of(origin, es@, 0)[k]);
                }
                assert forall|l: Location, k: int| label_at(labels@, l) is Some && 0 <= k < queue@.len() implies (
                #[trigger] label_at(labels@, l))->Some_0.time <= (#[trigger] queue@[k]).time by {
                    assert(l == origin);
                }
                assert forall|u: Location, j: int|
                    label_at(labels@, u) is Some && graph@.contains_key(u) && 0 <= j < graph@[u].len() implies {
                    ||| (label_at(labels@, (#[trigger] graph@[u][j]).destination) is Some && label_at(
                        labels@,
                        graph@[u][j].destination,
                    )->Some_0.time <= label_at(labels@, u)->Some_0.time + graph@[u][j].total_time())
                    ||| exists|k: int| 0 <= k < queue@.len() && (#[trigger] queue@[k]).from == u && queue@[k].index == j
                } by {
                    assert(u == origin);
                    assert(queue@[j] == entries_of(origin, es@, 0)[j]);
                    assert(queue@[j].from == u && queue@[j].index == j);
                }
            }
        },
        None => {
            if origin != target {
                proof {
                    assert(is_route(graph@, origin, Seq::<Edge>::empty()));
                }
                return Err(GraphIntegrityError::MissingVertex(origin));
            }
        },
    }
    let mut done = origin == target;
    while !done && queue.len() > 0
        invariant
            graph.wf(),
            search_inv(graph@, labels@, queue@, origin),
            labels_reached(graph@, labels@, origin),
            origin != target ==> graph@.contains_key(origin),
            done <==> label_at(labels@, target) is Some,
            stopped_at(labels@, target),
        decreases unsettled(labels@), queue@.len(),
    {
        let m = min_entry(&queue);
        let ghost q0 = queue@;
        let ghost l0 = labels@;
        let entry = queue.remove(m);
        let d = entry.edge.destination;
        if labels[d.index()].is_some() {
            proof {
                lemma_discard(graph@, l0, q0, m as int, origin);
                lemma_discard_order(graph@, l0, q0, m as int);
            }
        } else {
            let es = match graph.neighbors(d) {
                Some(es) => es,
                None => {
                    proof {
                        assert(entry_ok(graph@, l0, q0[m as int]));
                        let p = lemma_entry_route(graph@, l0, entry, origin);
                    }
                    return Err(GraphIntegrityError::MissingVertex(d));
                },
            };
            proof {
                assert(entry_ok(graph@, l0, q0[m as int]));
                assert(label_at(l0, entry.from) is Some);
                lemma_unsettled_drop(l0, d, origin_label());
            }
            let from_label = labels[entry.from.index()].unwrap();
            let lb = SearchLabel {
                time: entry.time,
                wait_time: from_label.wait_time + entry.edge.wait_time as u64,
                predecessor: Some(entry.from),
                mode: Some(entry.edge.transportation),
            };
            labels.set(d.index(), Some(lb));
            push_edges(&mut queue, d, es, entry.time);
            proof {
                lemma_settle_labels(graph@, l0, q0[m as int], origin, lb);
                lemma_settle_queue(graph@, l0, labels@, q0, m as int);
                lemma_settle_order(graph@, l0, labels@, q0, m as int);
                lemma_unsettled_drop(l0, d, lb);
                lemma_settle_reached(graph@, l0, labels@, entry, origin);
                lemma_settle_stops(l0, labels@, q0, m as int, target);
            }
            if d == target {
                done = true;
            }
        }
    }
    proof {
        lemma_settled_optimal(graph@, labels@, queue@, origin);
    }
    Ok(ShortestTimes { labels })
}

} // verus!
