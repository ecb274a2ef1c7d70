use vstd::prelude::*;

use crate::registry::{city_names, City, CityRegistry};

verus! {

/// One route definition as it comes from the data source.
pub struct RouteRecord {
    /// The names of the two cities the route joins.
    pub endpoints: [String; 2],
    /// Display colour; carried along, not interpreted.
    pub color: String,
    /// Distance; carried along, not interpreted.
    pub length: u32,
    pub tunnel: bool,
    pub ferries: u32,
}

/// An edge of the map: two city handles and the route's attributes.
#[derive(Clone, Copy, Debug)]
pub struct Route {
    /// Handles (indices into the map's cities) of the two ends.
    pub ends: [usize; 2],
    pub ferries: u32,
    pub tunnel: bool,
}

/// A record that cannot become a route: endpoint `endpoint` (0 or 1) of
/// record number `record` has an empty name.
#[derive(Clone, Copy, Debug, PartialEq, Eq, Structural)]
pub struct MalformedRecordError {
    pub record: usize,
    pub endpoint: usize,
}

/// Cities in order of first appearance and routes in input order.
pub struct RouteMap {
    pub routes: Vec<Route>,
    pub cities: Vec<City>,
}

/// Both endpoint names of the record are non-empty.
pub open spec fn record_ok(r: RouteRecord) -> bool {
    r.endpoints@[0]@.len() > 0 && r.endpoints@[1]@.len() > 0
}

pub open spec fn all_records_ok(records: Seq<RouteRecord>) -> bool {
    forall|j: int| 0 <= j < records.len() ==> #[trigger] record_ok(records[j])
}

impl MalformedRecordError {
    /// This error names the first empty endpoint name of `records`, scanning
    /// record by record and, within a record, end 0 before end 1.
    pub open spec fn is_first_fault_of(&self, records: Seq<RouteRecord>) -> bool {
        &&& self.record < records.len()
        &&& self.endpoint < 2
        &&& records[self.record as int].endpoints@[self.endpoint as int]@.len() == 0
        &&& self.endpoint == 1 ==> records[self.record as int].endpoints@[0]@.len() > 0
        &&& forall|j: int| 0 <= j < self.record ==> #[trigger] record_ok(records[j])
    }
}

/// All endpoint names of the records, two per record, in input order.
pub open spec fn endpoint_names(records: Seq<RouteRecord>) -> Seq<Seq<char>>
    decreases records.len(),
{
    if records.len() == 0 {
        Seq::empty()
    } else {
        let last = records.last();
        endpoint_names(records.drop_last()).push(last.endpoints@[0]@).push(last.endpoints@[1]@)
    }
}

/// The elements of `s` without repeats, each where it first occurs.
pub open spec fn distinct_in_order(s: Seq<Seq<char>>) -> Seq<Seq<char>>
    decreases s.len(),
{
    if s.len() == 0 {
        Seq::empty()
    } else {
        let d = distinct_in_order(s.drop_last());
        if d.contains(s.last()) {
            d
        } else {
            d.push(s.last())
        }
    }
}

/// How many times `h` appears among the ends of route `r`.
pub open spec fn end_hits(r: Route, h: int) -> nat {
    (if r.ends@[0] == h { 1nat } else { 0nat }) + (if r.ends@[1] == h { 1nat } else { 0nat })
}

/// How many route ends in `routes` refer to handle `h`.
pub open spec fn ref_count(routes: Seq<Route>, h: int) -> nat
    decreases routes.len(),
{
    if routes.len() == 0 {
        0
    } else {
        ref_count(routes.drop_last(), h) + end_hits(routes.last(), h)
    }
}

/// Every end of every route is a handle below `n`.
pub open spec fn ends_in_range(routes: Seq<Route>, n: int) -> bool {
    forall|i: int|
        0 <= i < routes.len() ==> #[trigger] routes[i].ends@[0] < n && routes[i].ends@[1] < n
}

/// `route`, read against `cities`, is what `rec` describes.
pub open spec fn route_matches(cities: Seq<City>, route: Route, rec: RouteRecord) -> bool {
    &&& cities[route.ends@[0] as int].name@ == rec.endpoints@[0]@
    &&& cities[route.ends@[1] as int].name@ == rec.endpoints@[1]@
    &&& route.ferries == rec.ferries
    &&& route.tunnel == rec.tunnel
}

impl RouteMap {
    /// City names are unique, every route end is a city of the map, and each
    /// city's route count is the number of route ends that refer to it.
    pub open spec fn wf(&self) -> bool {
        &&& city_names(self.cities@).no_duplicates()
        &&& ends_in_range(self.routes@, self.cities@.len() as int)
        &&& forall|k: int|
            0 <= k < self.cities@.len() ==> #[trigger] self.cities@[k].route_count == ref_count(
                self.routes@,
                k,
            )
    }

    /// This map is the one that `records` describe: its cities are the
    /// distinct endpoint names in order of first appearance, and route `i`
    /// is record `i`.
    pub open spec fn built_from(&self, records: Seq<RouteRecord>) -> bool {
        &&& self.wf()
        &&& city_names(self.cities@) == distinct_in_order(endpoint_names(records))
        &&& self.routes@.len() == records.len()
        &&& forall|i: int|
            0 <= i < records.len() ==> route_matches(self.cities@, #[trigger] self.routes@[i], records[i])
    }
}

proof fn lemma_ref_count_push(routes: Seq<Route>, r: Route, h: int)
    ensures
        ref_count(routes.push(r), h) == ref_count(routes, h) + end_hits(r, h),
{
    assert(routes.push(r).drop_last() =~= routes);
}

/// No route end refers to a handle at or past `n` when all ends are below `n`.
proof fn lemma_ref_count_beyond(routes: Seq<Route>, n: int, h: int)
    requires
        ends_in_range(routes, n),
        h >= n,
    ensures
        ref_count(routes, h) == 0,
    decreases routes.len(),
{
    if routes.len() > 0 {
        let rest = routes.drop_last();
        assert(routes.last() == routes[routes.len() - 1]);
        assert forall|i: int| 0 <= i < rest.len() implies #[trigger] rest[i].ends@[0] < n
            && rest[i].ends@[1] < n by {
            assert(rest[i] == routes[i]);
        }
        lemma_ref_count_beyond(rest, n, h);
    }
}

impl RouteMap {
    /// Builds the map that `records` describe, in one pass and in input
    /// order; fails on the first record with an empty endpoint name.
    ///
    /// A city's route count is a `u32` and grows by at most two per record,
    /// so the number of records is bounded accordingly.
    pub fn build(records: &Vec<RouteRecord>) -> (r: Result<RouteMap, MalformedRecordError>)
        requires
            2 * records@.len() <= u32::MAX,
        ensures
            r is Ok <==> all_records_ok(records@),
            r matches Ok(m) ==> m.built_from(records@),
            r matches Err(e) ==> e.is_first_fault_of(records@),
    {
        let mut reg = CityRegistry::new();
        let mut routes: Vec<Route> = Vec::new();
        let mut i: usize = 0;
        assert(records@.take(0) =~= Seq::<RouteRecord>::empty());
        while i < records.len()
            invariant
                i <= records@.len(),
                2 * records@.len() <= u32::MAX,
                reg.wf(),
                forall|j: int| 0 <= j < i ==> #[trigger] record_ok(records@[j]),
                routes@.len() == i,
                ends_in_range(routes@, reg.cities().len() as int),
                reg.names() == distinct_in_order(endpoint_names(records@.take(i as int))),
                forall|j: int|
                    0 <= j < i ==> route_matches(reg.cities(), #[trigger] routes@[j], records@[j]),
                forall|k: int|
                    0 <= k < reg.cities().len() ==> #[trigger] reg.cities()[k].route_count
                        == ref_count(routes@, k),
                forall|k: int|
                    0 <= k < reg.cities().len() ==> #[trigger] reg.cities()[k].route_count <= 2 * i,
            decreases records@.len() - i,
        {
            let rec = &records[i];
            if rec.endpoints[0].as_str().is_empty() {
                assert(!record_ok(records@[i as int]));
                return Err(MalformedRecordError { record: i, endpoint: 0 });
            }
            if rec.endpoints[1].as_str().is_empty() {
                assert(!record_ok(records@[i as int]));
                return Err(MalformedRecordError { record: i, endpoint: 1 });
            }
            let ghost cities0 = reg.cities();
            let ghost routes0 = routes@;
            let a = reg.resolve(&rec.endpoints[0]);
            let ghost names_a = reg.names();
            let b = reg.resolve(&rec.endpoints[1]);
            let ghost cities1 = reg.cities();
            proof {
                assert forall|k: int| 0 <= k < cities1.len() implies #[trigger] cities1[k].route_count
                    <= 2 * i by {
                    if k < cities0.len() {
                        assert(cities1[k] == cities0[k]);
                    } else {
                        lemma_ref_count_beyond(routes0, cities0.len() as int, k);
                    }
                }
            }
            reg.count_route(a);
            let ghost cities_a = reg.cities();
            reg.count_route(b);
            let route = Route { ends: [a, b], ferries: rec.ferries, tunnel: rec.tunnel };
            routes.push(route);
            proof {
                assert(route.ends@[0] == a && route.ends@[1] == b);
                let cities2 = reg.cities();
                assert forall|k: int| 0 <= k < cities2.len() implies #[trigger] cities2[k].route_count
                    == ref_count(routes@, k) by {
                    lemma_ref_count_push(routes0, route, k);
                    assert(routes0.push(route) == routes@);
                    assert(k != b ==> cities2[k] == cities_a[k]);
                    assert(k != a ==> cities_a[k] == cities1[k]);
                    if k < cities0.len() {
                        assert(cities1[k] == cities0[k]);
                    } else {
                        lemma_ref_count_beyond(routes0, cities0.len() as int, k);
                    }
                }
                let t = records@.take(i + 1);
                assert(t.drop_last() =~= records@.take(i as int));
                assert(t.last() == records@[i as int]);
                let e = endpoint_names(records@.take(i as int));
                let e1 = e.push(rec.endpoints@[0]@);
                assert(e1.push(rec.endpoints@[1]@).drop_last() =~= e1);
                assert(e1.drop_last() =~= e);
                let n0 = rec.endpoints@[0]@;
                let n1 = rec.endpoints@[1]@;
                let e2 = e1.push(n1);
                assert(endpoint_names(t) == e2);
                let d0 = distinct_in_order(e);
                assert(distinct_in_order(e1) == (if d0.contains(n0) { d0 } else { d0.push(n0) }));
                assert(names_a == distinct_in_order(e1));
                let d1 = distinct_in_order(e1);
                assert(distinct_in_order(e2) == (if d1.contains(n1) { d1 } else { d1.push(n1) }));
            }
            i = i + 1;
        }
        assert(records@.take(i as int) =~= records@);
        Ok(RouteMap { routes, cities: reg.into_cities() })
    }
}

impl RouteMap {
    /// The handle of the city called `name`, if the map has one.
    pub fn find_city(&self, name: &String) -> (r: Option<usize>)
        ensures
            match r {
                Some(h) => h < self.cities@.len() && self.cities@[h as int].name@ == name@,
                None => !city_names(self.cities@).contains(name@),
            },
    {
        let mut i: usize = 0;
        while i < self.cities.len()
            invariant
                0 <= i <= self.cities@.len(),
                forall|j: int| 0 <= j < i ==> self.cities@[j].name@ != name@,
            decreases self.cities@.len() - i,
        {
            if self.cities[i].name == *name {
                return Some(i);
            }
            i = i + 1;
        }
        proof {
            let names = city_names(self.cities@);
            if names.contains(name@) {
                let j = choose|j: int| 0 <= j < names.len() && names[j] == name@;
                assert(self.cities@[j].name@ == name@);
            }
        }
        None
    }

    /// The names of the two ends of route `i`.
    pub fn route_endpoint_names(&self, i: usize) -> (r: (&String, &String))
        requires
            self.wf(),
            i < self.routes@.len(),
        ensures
            r.0@ == self.cities@[self.routes@[i as int].ends@[0] as int].name@,
            r.1@ == self.cities@[self.routes@[i as int].ends@[1] as int].name@,
    {
        let route = &self.routes[i];
        assert(route.ends@[0] < self.cities@.len() && route.ends@[1] < self.cities@.len());
        (&self.cities[route.ends[0]].name, &self.cities[route.ends[1]].name)
    }
}

/// Two names per record.
pub proof fn lemma_endpoint_names_len(records: Seq<RouteRecord>)
    ensures
        endpoint_names(records).len() == 2 * records.len(),
    decreases records.len(),
{
    if records.len() > 0 {
        lemma_endpoint_names_len(records.drop_last());
    }
}

/// Removing repeats keeps the same set of names, leaves no repeat, and
/// changes nothing in a sequence without repeats.
pub proof fn lemma_distinct_in_order(s: Seq<Seq<char>>)
    ensures
        distinct_in_order(s).no_duplicates(),
        distinct_in_order(s).to_set() == s.to_set(),
        s.no_duplicates() ==> distinct_in_order(s) == s,
    decreases s.len(),
{
    broadcast use Seq::lemma_push_to_set_commute;

    if s.len() == 0 {
        assert(s.to_set() =~= Set::<Seq<char>>::empty());
        assert(distinct_in_order(s).to_set() =~= Set::<Seq<char>>::empty());
    } else {
        let p = s.drop_last();
        let x = s.last();
        lemma_distinct_in_order(p);
        let d = distinct_in_order(p);
        assert(s =~= p.push(x));
        assert(d.contains(x) <==> d.to_set().contains(x));
        assert(p.contains(x) <==> p.to_set().contains(x));
        if d.contains(x) {
            assert(s.to_set() =~= d.to_set());
        }
        if s.no_duplicates() {
            assert(p.no_duplicates()) by {
                assert forall|i: int, j: int|
                    0 <= i < p.len() && 0 <= j < p.len() && i != j implies p[i] != p[j] by {
                    assert(p[i] == s[i] && p[j] == s[j]);
                }
            }
            if p.contains(x) {
                let i = choose|i: int| 0 <= i < p.len() && p[i] == x;
                assert(s[i] == s[s.len() - 1]);
            }
        }
    }
}

/// The map has one city per distinct endpoint name; where no endpoint name
/// repeats across the records, that is two cities per record.
pub proof fn lemma_city_count(m: &RouteMap, records: Seq<RouteRecord>)
    requires
        m.built_from(records),
    ensures
        m.cities@.len() == endpoint_names(records).to_set().len(),
        endpoint_names(records).no_duplicates() ==> m.cities@.len() == 2 * records.len(),
{
    let e = endpoint_names(records);
    lemma_distinct_in_order(e);
    lemma_endpoint_names_len(records);
    distinct_in_order(e).unique_seq_to_set();
    assert(city_names(m.cities@).len() == m.cities@.len());
}

/// Each city's route count is the number of route ends that refer to it, a
/// self-loop counting twice.
pub proof fn lemma_route_counts(m: &RouteMap, records: Seq<RouteRecord>)
    requires
        m.built_from(records),
    ensures
        forall|k: int|
            0 <= k < m.cities@.len() ==> #[trigger] m.cities@[k].route_count == ref_count(
                m.routes@,
                k,
            ),
{
}

/// Route `i` of the map carries the endpoint names, ferries and tunnel flag
/// of record `i`, for every `i`: the routes keep the input order.
pub proof fn lemma_route_order(m: &RouteMap, records: Seq<RouteRecord>)
    requires
        m.built_from(records),
    ensures
        m.routes@.len() == records.len(),
        forall|i: int|
            0 <= i < records.len() ==> {
                &&& m.cities@[m.routes@[i].ends@[0] as int].name@ == records[i].endpoints@[0]@
                &&& m.cities@[m.routes@[i].ends@[1] as int].name@ == records[i].endpoints@[1]@
                &&& #[trigger] m.routes@[i].ferries == records[i].ferries
                &&& m.routes@[i].tunnel == records[i].tunnel
            },
{
    assert forall|i: int| 0 <= i < records.len() implies route_matches(
        m.cities@,
        m.routes@[i],
        records[i],
    ) by {}
}

} // verus!
