use vstd::prelude::*;

verus! {

/// The fixed set of sites of the network. `Home` is where trips start.
#[derive(Debug, Clone, Copy, PartialEq, Eq, Structural, Hash)]
pub enum Location {
    Home,
    BAL,
    WAS,
    NCR,
    ROS,
    ARL,
}

/// Number of locations; slot tables are indexed by `Location::index`.
pub const LOCATION_COUNT: usize = 6;

/// Position of a location in slot tables.
pub open spec fn loc_index(l: Location) -> int {
    match l {
        Location::Home => 0,
        Location::BAL => 1,
        Location::WAS => 2,
        Location::NCR => 3,
        Location::ROS => 4,
        Location::ARL => 5,
    }
}

/// Distinct locations have distinct slots.
pub proof fn lemma_loc_index_injective(a: Location, b: Location)
    ensures
        loc_index(a) == loc_index(b) <==> a == b,
        0 <= loc_index(a) < LOCATION_COUNT,
{
    match a {
        Location::Home => {},
        Location::BAL => {},
        Location::WAS => {},
        Location::NCR => {},
        Location::ROS => {},
        Location::ARL => {},
    }
}

impl Location {
    pub fn index(self) -> (r: usize)
        ensures
            r == loc_index(self),
            r < LOCATION_COUNT,
    {
        match self {
            Location::Home => 0,
            Location::BAL => 1,
            Location::WAS => 2,
            Location::NCR => 3,
            Location::ROS => 4,
            Location::ARL => 5,
        }
    }
}

/// The mode of transportation used on one leg.
#[derive(Debug, Clone, Copy, PartialEq, Eq, Structural)]
pub enum Transportation {
    Walk,
    PersonalBike,
    Bikeshare,
    ElectricBikeshare,
    Car,
    AmtrakAcela,
    AmtrakNE,
    Marc,
    Metro,
}

/// A directed leg towards `destination`. Times are in minutes, `cost` in
/// cents; `hassle_units` may be negative (a convenience bonus). The total
/// time is not stored: it is always `travel_time + wait_time`.
#[derive(Debug, Clone, Copy, PartialEq, Eq, Structural)]
pub struct Edge {
    pub destination: Location,
    pub transportation: Transportation,
    pub travel_time: u32,
    pub wait_time: u32,
    pub cost: u32,
    pub hassle_units: i32,
}

impl Edge {
    pub open spec fn total_time_spec(&self) -> u64 {
        (self.travel_time + self.wait_time) as u64
    }

    /// Travel time plus wait time.
    #[verifier::when_used_as_spec(total_time_spec)]
    pub fn total_time(&self) -> (r: u64)
        ensures
            r == self.travel_time + self.wait_time,
    {
        self.travel_time as u64 + self.wait_time as u64
    }
}

pub fn new_edge(
    destination: Location,
    transportation: Transportation,
    travel_time: u32,
    wait_time: u32,
    cost: u32,
    hassle_units: i32,
) -> (r: Edge)
    ensures
        r == (Edge { destination, transportation, travel_time, wait_time, cost, hassle_units }),
        r.total_time() == travel_time + wait_time,
{
    Edge { destination, transportation, travel_time, wait_time, cost, hassle_units }
}

/// A location with its outgoing edges, in exploration order.
#[derive(Debug, Clone)]
pub struct Vertex {
    pub location: Location,
    pub edges: Vec<Edge>,
}

pub fn new_vertex(location: Location, edges: Vec<Edge>) -> (r: Vertex)
    ensures
        r.location == location,
        r.edges@ == edges@,
{
    Vertex { location, edges }
}

/// The network: for each location that has a vertex, its outgoing edges.
/// Its view maps each such location to its edge sequence.
#[derive(Debug, Clone)]
pub struct Graph {
    slots: Vec<Option<Vec<Edge>>>,
}

impl View for Graph {
    type V = Map<Location, Seq<Edge>>;

    closed spec fn view(&self) -> Map<Location, Seq<Edge>> {
        Map::new(
            |l: Location| self.slots@[loc_index(l)] is Some,
            |l: Location| self.slots@[loc_index(l)]->Some_0@,
        )
    }
}

impl Graph {
    pub closed spec fn wf(&self) -> bool {
        self.slots@.len() == LOCATION_COUNT
    }

    /// A graph without vertices.
    pub fn new() -> (r: Graph)
        ensures
            r.wf(),
            r@ == Map::<Location, Seq<Edge>>::empty(),
    {
        let mut slots: Vec<Option<Vec<Edge>>> = Vec::new();
        let mut i: usize = 0;
        while i < LOCATION_COUNT
            invariant
                i <= LOCATION_COUNT,
                slots@.len() == i,
                forall|j: int| 0 <= j < i ==> slots@[j] is None,
            decreases LOCATION_COUNT - i,
        {
            slots.push(None);
            i += 1;
        }
        let r = Graph { slots };
        assert(r@ =~= Map::<Location, Seq<Edge>>::empty());
        r
    }

    /// Adds `v`, replacing any vertex already held for its location.
    pub fn add_vertex(&mut self, v: Vertex)
        requires
            old(self).wf(),
        ensures
            final(self).wf(),
            final(self)@ == old(self)@.insert(v.location, v.edges@),
    {
        let i = v.location.index();
        self.slots.set(i, Some(v.edges));
        proof {
            assert forall|l: Location| loc_index(l) == i implies l == v.location by {
                match l {
                    _ => {},
                }
            }
        }
        assert(self@ =~= old(self)@.insert(v.location, v.edges@));
    }

    /// The outgoing edges of `l`, or `None` where `l` has no vertex.
    pub fn neighbors(&self, l: Location) -> (r: Option<&Vec<Edge>>)
        requires
            self.wf(),
        ensures
            r is Some <==> self@.contains_key(l),
            r is Some ==> r->Some_0@ == self@[l],
    {
        match &self.slots[l.index()] {
            Some(es) => Some(es),
            None => None,
        }
    }
}

} // verus!
