use vstd::prelude::*;
use crate::network::{loc_index, Edge, Graph, Location, LOCATION_COUNT};
use crate::trip::location_after;

verus! {

/// The graph is malformed: a location reached before the destination has
/// no vertex.
#[derive(Debug, Clone, Copy, PartialEq, Eq, Structural)]
pub enum GraphIntegrityError {
    MissingVertex(Location),
}

/// Per-branch record of the locations already left on the current path,
/// indexed by `Location::index`.
pub type Visited = [bool; 6];

/// Number of locations not yet left on the current branch.
pub open spec fn unvisited(v: Seq<bool>) -> nat {
    (if v[0] { 0nat } else { 1nat }) + (if v[1] { 0nat } else { 1nat }) + (if v[2] {
        0nat
    } else {
        1nat
    }) + (if v[3] { 0nat } else { 1nat }) + (if v[4] { 0nat } else { 1nat }) + (if v[5] {
        0nat
    } else {
        1nat
    })
}

/// All paths from `at` to `dest` that extend `prefix`, depth first, in
/// adjacency order. A branch ends at `dest`, and is dropped where it would
/// leave a location a second time; a location without a vertex met before
/// `dest` makes the whole enumeration fail.
pub open spec fn paths_from(
    g: Map<Location, Seq<Edge>>,
    at: Location,
    dest: Location,
    visited: Seq<bool>,
    prefix: Seq<Edge>,
) -> Result<Seq<Seq<Edge>>, GraphIntegrityError>
    recommends
        visited.len() == LOCATION_COUNT,
    decreases unvisited(visited), 0nat,
{
    if at == dest {
        Ok(seq![prefix])
    } else if visited.len() != LOCATION_COUNT || visited[loc_index(at)] {
        Ok(seq![])
    } else if !g.contains_key(at) {
        Err(GraphIntegrityError::MissingVertex(at))
    } else {
        paths_along(g, g[at], dest, visited.update(loc_index(at), true), prefix)
    }
}

/// The paths of `paths_from` through each edge of `es` in turn, concatenated.
pub open spec fn paths_along(
    g: Map<Location, Seq<Edge>>,
    es: Seq<Edge>,
    dest: Location,
    visited: Seq<bool>,
    prefix: Seq<Edge>,
) -> Result<Seq<Seq<Edge>>, GraphIntegrityError>
    decreases unvisited(visited), es.len() + 1,
{
    if es.len() == 0 {
        Ok(seq![])
    } else {
        match paths_along(g, es.drop_last(), dest, visited, prefix) {
            Err(e) => Err(e),
            Ok(a) => match paths_from(g, es.last().destination, dest, visited, prefix.push(es.last())) {
                Err(e) => Err(e),
                Ok(b) => Ok(a + b),
            },
        }
    }
}

/// `p` is a route of `g` from `origin`: each edge leaves the location the
/// previous one reached.
pub open spec fn is_route(g: Map<Location, Seq<Edge>>, origin: Location, p: Seq<Edge>) -> bool {
    forall|i: int| 0 <= i < p.len() ==> #[trigger] route_step(g, origin, p, i)
}

/// Edge `i` of `p` is an edge of the location where its first `i` edges end.
pub open spec fn route_step(g: Map<Location, Seq<Edge>>, origin: Location, p: Seq<Edge>, i: int) -> bool {
    let src = location_after(p.take(i), origin);
    g.contains_key(src) && g[src].contains(p[i])
}

pub(crate) proof fn lemma_route_extends(g: Map<Location, Seq<Edge>>, origin: Location, prefix: Seq<Edge>, e: Edge)
    requires
        is_route(g, origin, prefix),
        g.contains_key(location_after(prefix, origin)),
        g[location_after(prefix, origin)].contains(e),
    ensures
        is_route(g, origin, prefix.push(e)),
        location_after(prefix.push(e), origin) == e.destination,
{
    let p = prefix.push(e);
    assert forall|i: int| 0 <= i < p.len() implies #[trigger] route_step(g, origin, p, i) by {
        if i < prefix.len() {
            assert(route_step(g, origin, prefix, i));
            assert(p.take(i) =~= prefix.take(i));
            assert(p[i] == prefix[i]);
        } else {
            assert(p.take(i) =~= prefix);
        }
    }
}

proof fn lemma_from_routes(
    g: Map<Location, Seq<Edge>>,
    origin: Location,
    at: Location,
    dest: Location,
    visited: Seq<bool>,
    prefix: Seq<Edge>,
)
    requires
        is_route(g, origin, prefix),
        location_after(prefix, origin) == at,
        paths_from(g, at, dest, visited, prefix) is Ok,
    ensures
        forall|k: int|
            0 <= k < paths_from(g, at, dest, visited, prefix)->Ok_0.len() ==> is_route(g, origin, #[trigger] paths_from(
                g,
                at,
                dest,
                visited,
                prefix,
            )->Ok_0[k]) && location_after(paths_from(g, at, dest, visited, prefix)->Ok_0[k], origin) == dest,
    decreases unvisited(visited), 0nat,
{
    if at != dest && visited.len() == LOCATION_COUNT && !visited[loc_index(at)] && g.contains_key(at) {
        lemma_along_routes(g, origin, g[at], dest, visited.update(loc_index(at), true), prefix);
    }
}

proof fn lemma_along_routes(
    g: Map<Location, Seq<Edge>>,
    origin: Location,
    es: Seq<Edge>,
    dest: Location,
    visited: Seq<bool>,
    prefix: Seq<Edge>,
)
    requires
        is_route(g, origin, prefix),
        g.contains_key(location_after(prefix, origin)),
        forall|i: int| 0 <= i < es.len() ==> g[location_after(prefix, origin)].contains(#[trigger] es[i]),
        paths_along(g, es, dest, visited, prefix) is Ok,
    ensures
        forall|k: int|
            0 <= k < paths_along(g, es, dest, visited, prefix)->Ok_0.len() ==> is_route(g, origin, #[trigger] paths_along(
                g,
                es,
                dest,
                visited,
                prefix,
            )->Ok_0[k]) && location_after(paths_along(g, es, dest, visited, prefix)->Ok_0[k], origin) == dest,
    decreases unvisited(visited), es.len() + 1,
{
    if es.len() > 0 {
        let e = es.last();
        assert(e == es[es.len() - 1]);
        assert forall|i: int| 0 <= i < es.drop_last().len() implies g[location_after(prefix, origin)].contains(
            #[trigger] es.drop_last()[i],
        ) by {
            assert(es.drop_last()[i] == es[i]);
        }
        lemma_along_routes(g, origin, es.drop_last(), dest, visited, prefix);
        lemma_route_extends(g, origin, prefix, e);
        lemma_from_routes(g, origin, e.destination, dest, visited, prefix.push(e));
        let a = paths_along(g, es.drop_last(), dest, visited, prefix)->Ok_0;
        let b = paths_from(g, e.destination, dest, visited, prefix.push(e))->Ok_0;
        let all = paths_along(g, es, dest, visited, prefix)->Ok_0;
        assert(all == a + b);
        assert forall|k: int| 0 <= k < all.len() implies is_route(g, origin, #[trigger] all[k]) && location_after(
            all[k],
            origin,
        ) == dest by {
            if k < a.len() {
                assert(all[k] == a[k]);
            } else {
                assert(all[k] == b[k - a.len()]);
            }
        }
    }
}

/// Every enumerated path is a route of the graph from the origin, each edge
/// leaving where the previous one arrived, and it ends at the destination.
pub proof fn lemma_enumerated_paths_are_routes(g: Map<Location, Seq<Edge>>, origin: Location, dest: Location)
    requires
        paths_from(g, origin, dest, no_visits(), seq![]) is Ok,
    ensures
        forall|k: int|
            0 <= k < paths_from(g, origin, dest, no_visits(), seq![])->Ok_0.len() ==> is_route(
                g,
                origin,
                #[trigger] paths_from(g, origin, dest, no_visits(), seq![])->Ok_0[k],
            ) && location_after(paths_from(g, origin, dest, no_visits(), seq![])->Ok_0[k], origin) == dest,
{
    lemma_from_routes(g, origin, origin, dest, no_visits(), seq![]);
}

/// Number of paths from `at` to `dest`: one at `dest`; otherwise the sum,
/// over the outgoing edges, of the number from each edge's destination (the
/// product of the branch counts along each route, summed over routes).
pub open spec fn path_count(g: Map<Location, Seq<Edge>>, at: Location, dest: Location, visited: Seq<bool>) -> nat
    decreases unvisited(visited), 0nat,
{
    if at == dest {
        1
    } else if visited.len() != LOCATION_COUNT || visited[loc_index(at)] || !g.contains_key(at) {
        0
    } else {
        path_count_along(g, g[at], dest, visited.update(loc_index(at), true))
    }
}

/// Sum of `path_count` over the destinations of `es`.
pub open spec fn path_count_along(g: Map<Location, Seq<Edge>>, es: Seq<Edge>, dest: Location, visited: Seq<bool>) -> nat
    decreases unvisited(visited), es.len() + 1,
{
    if es.len() == 0 {
        0
    } else {
        path_count_along(g, es.drop_last(), dest, visited) + path_count(g, es.last().destination, dest, visited)
    }
}

proof fn lemma_count_from(
    g: Map<Location, Seq<Edge>>,
    at: Location,
    dest: Location,
    visited: Seq<bool>,
    prefix: Seq<Edge>,
)
    requires
        paths_from(g, at, dest, visited, prefix) is Ok,
    ensures
        paths_from(g, at, dest, visited, prefix)->Ok_0.len() == path_count(g, at, dest, visited),
    decreases unvisited(visited), 0nat,
{
    if at != dest && visited.len() == LOCATION_COUNT && !visited[loc_index(at)] && g.contains_key(at) {
        lemma_count_along(g, g[at], dest, visited.update(loc_index(at), true), prefix);
    }
}

proof fn lemma_count_along(
    g: Map<Location, Seq<Edge>>,
    es: Seq<Edge>,
    dest: Location,
    visited: Seq<bool>,
    prefix: Seq<Edge>,
)
    requires
        paths_along(g, es, dest, visited, prefix) is Ok,
    ensures
        paths_along(g, es, dest, visited, prefix)->Ok_0.len() == path_count_along(g, es, dest, visited),
    decreases unvisited(visited), es.len() + 1,
{
    if es.len() > 0 {
        lemma_count_along(g, es.drop_last(), dest, visited, prefix);
        lemma_count_from(g, es.last().destination, dest, visited, prefix.push(es.last()));
    }
}

/// The enumeration yields exactly `path_count` paths: on a graph whose
/// routes to the destination revisit no location, the sum over routes of the
/// product of branch counts.
pub proof fn lemma_enumerated_path_count(g: Map<Location, Seq<Edge>>, origin: Location, dest: Location)
    requires
        paths_from(g, origin, dest, no_visits(), seq![]) is Ok,
    ensures
        paths_from(g, origin, dest, no_visits(), seq![])->Ok_0.len() == path_count(g, origin, dest, no_visits()),
{
    lemma_count_from(g, origin, dest, no_visits(), seq![]);
}

pub open spec fn no_visits() -> Seq<bool> {
    seq![false, false, false, false, false, false]
}

pub open spec fn paths_view(ps: Seq<Vec<Edge>>) -> Seq<Seq<Edge>> {
    ps.map_values(|p: Vec<Edge>| p@)
}

proof fn lemma_failure_persists(
    g: Map<Location, Seq<Edge>>,
    es: Seq<Edge>,
    dest: Location,
    visited: Seq<bool>,
    prefix: Seq<Edge>,
    k: int,
)
    requires
        0 <= k <= es.len(),
        paths_along(g, es.take(k), dest, visited, prefix) is Err,
    ensures
        paths_along(g, es, dest, visited, prefix) == paths_along(g, es.take(k), dest, visited, prefix),
    decreases es.len(),
{
    if k == es.len() {
        assert(es.take(k) =~= es);
    } else {
        assert(es.drop_last().take(k) =~= es.take(k));
        lemma_failure_persists(g, es.drop_last(), dest, visited, prefix, k);
    }
}

/// Appends to `total_paths` every path of `paths_from` from `at`.
fn collect_paths(
    graph: &Graph,
    at: Location,
    destination: Location,
    visited: Visited,
    current_path: Vec<Edge>,
    total_paths: &mut Vec<Vec<Edge>>,
) -> (r: Result<(), GraphIntegrityError>)
    requires
        graph.wf(),
    ensures
        match paths_from(graph@, at, destination, visited@, current_path@) {
            Ok(ps) => r is Ok && paths_view(final(total_paths)@) == paths_view(old(total_paths)@) + ps,
            Err(e) => r == Err::<(), GraphIntegrityError>(e),
        },
    decreases unvisited(visited@), 1nat,
{
    if at == destination {
        total_paths.push(current_path);
        assert(paths_view(total_paths@) =~= paths_view(old(total_paths)@) + seq![current_path@]);
        return Ok(());
    }
    let i = at.index();
    if visited[i] {
        assert(paths_view(total_paths@) =~= paths_view(old(total_paths)@) + seq![]);
        return Ok(());
    }
    let edges = match graph.neighbors(at) {
        Some(es) => es,
        None => {
            return Err(GraphIntegrityError::MissingVertex(at));
        },
    };
    let mut next = visited;
    next.set(i, true);
    assert(next@ =~= visited@.update(loc_index(at), true));
    let ghost es = edges@;
    assert(paths_from(graph@, at, destination, visited@, current_path@) == paths_along(
        graph@,
        es,
        destination,
        next@,
        current_path@,
    ));
    let mut k: usize = 0;
    while k < edges.len()
        invariant
            graph.wf(),
            es == edges@,
            graph@.contains_key(at),
            es == graph@[at],
            paths_from(graph@, at, destination, visited@, current_path@) == paths_along(
                graph@,
                es,
                destination,
                next@,
                current_path@,
            ),
            0 <= k <= es.len(),
            next@ == visited@.update(loc_index(at), true),
            unvisited(next@) < unvisited(visited@),
            paths_along(graph@, es.take(k as int), destination, next@, current_path@) is Ok,
            paths_view(total_paths@) == paths_view(old(total_paths)@) + paths_along(
                graph@,
                es.take(k as int),
                destination,
                next@,
                current_path@,
            )->Ok_0,
        decreases es.len() - k,
    {
        let edge = edges[k];
        let mut new_path = current_path.clone();
        assert(new_path@ =~= current_path@);
        new_path.push(edge);
        let ghost before = paths_view(total_paths@);
        let ghost np = new_path@;
        assert(np == current_path@.push(es[k as int]));
        let ghost tk = es.take(k + 1);
        assert(tk.drop_last() =~= es.take(k as int));
        let sub = collect_paths(graph, edge.destination, destination, next, new_path, total_paths);
        match sub {
            Ok(()) => {},
            Err(e) => {
                proof {
                    assert(tk.last() == es[k as int]);
                    assert(paths_along(graph@, tk, destination, next@, current_path@) is Err);
                    lemma_failure_persists(graph@, es, destination, next@, current_path@, k + 1);
                }
                return Err(e);
            },
        }
        k += 1;
    }
    assert(es.take(k as int) =~= es);
    Ok(())
}

/// Enumeration depends on the graph's contents alone: run twice on the same
/// graph, or on two graphs with the same vertices and edges, it gives the
/// same paths in the same order, or the same error.
pub proof fn lemma_enumeration_repeatable(g1: &Graph, g2: &Graph, origin: Location, destination: Location)
    requires
        g1@ == g2@,
    ensures
        paths_from(g1@, origin, destination, no_visits(), seq![]) == paths_from(
            g2@,
            origin,
            destination,
            no_visits(),
            seq![],
        ),
{
}

/// Every path from `origin` to `destination`, depth first in adjacency
/// order; a path never leaves the same location twice.
pub fn get_possible_paths(graph: &Graph, origin: Location, destination: Location) -> (r: Result<
    Vec<Vec<Edge>>,
    GraphIntegrityError,
>)
    requires
        graph.wf(),
    ensures
        match paths_from(graph@, origin, destination, no_visits(), seq![]) {
            Ok(ps) => r is Ok && paths_view(r->Ok_0@) == ps,
            Err(e) => r == Err::<Vec<Vec<Edge>>, GraphIntegrityError>(e),
        },
{
    let mut total_paths: Vec<Vec<Edge>> = Vec::new();
    let visited: Visited = [false, false, false, false, false, false];
    assert(visited@ =~= no_visits());
    let current_path: Vec<Edge> = Vec::new();
    assert(current_path@ =~= seq![]);
    assert(paths_view(total_paths@) =~= seq![]);
    match collect_paths(graph, origin, destination, visited, current_path, &mut total_paths) {
        Ok(()) => {
            assert(paths_view(total_paths@) =~= seq![] + paths_view(total_paths@));
            Ok(total_paths)
        },
        Err(e) => Err(e),
    }
}

} // verus!
