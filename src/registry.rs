use vstd::prelude::*;

verus! {

/// A uniquely named node of the map.
pub struct City {
    pub name: String,
    /// How many route ends refer to this city (a self-loop counts twice).
    pub route_count: u32,
}

impl City {
    /// A city with the given name and no routes yet.
    pub fn new(name: &str) -> (c: City)
        ensures
            c.name@ == name@,
            c.route_count == 0,
    {
        City { name: name.to_owned(), route_count: 0 }
    }
}

/// The names of a sequence of cities, in the same order.
pub open spec fn city_names(cities: Seq<City>) -> Seq<Seq<char>> {
    cities.map_values(|c: City| c.name@)
}

/// Owns the cities seen so far and hands out a stable handle for each name.
pub struct CityRegistry {
    cities: Vec<City>,
}

impl CityRegistry {
    /// The cities in the order in which their names were first resolved.
    pub closed spec fn cities(&self) -> Seq<City> {
        self.cities@
    }

    pub open spec fn names(&self) -> Seq<Seq<char>> {
        city_names(self.cities())
    }

    /// No two cities share a name.
    pub open spec fn wf(&self) -> bool {
        self.names().no_duplicates()
    }

    /// `after` is this registry once `name` has been resolved to handle `h`:
    /// a known name keeps its handle and the registry unchanged, a new name
    /// gets a fresh city with no routes at the end of the collection.
    pub open spec fn resolves_to(&self, name: Seq<char>, after: &Self, h: int) -> bool {
        &&& after.wf()
        &&& 0 <= h < after.cities().len()
        &&& after.cities()[h].name@ == name
        &&& forall|k: int| 0 <= k < self.cities().len() ==> #[trigger] after.cities()[k] == self.cities()[k]
        &&& after.names() == if self.names().contains(name) {
            self.names()
        } else {
            self.names().push(name)
        }
        &&& if self.names().contains(name) {
            after.cities() == self.cities()
        } else {
            &&& h == self.cities().len()
            &&& after.cities().len() == self.cities().len() + 1
            &&& after.cities().drop_last() == self.cities()
            &&& after.cities()[h].route_count == 0
        }
    }

    pub fn new() -> (r: CityRegistry)
        ensures
            r.wf(),
            r.cities() == Seq::<City>::empty(),
    {
        let r = CityRegistry { cities: Vec::new() };
        assert(r.names() =~= Seq::<Seq<char>>::empty());
        r
    }

    pub fn len(&self) -> (n: usize)
        ensures
            n == self.cities().len(),
    {
        self.cities.len()
    }

    /// The handle of the city called `name`, if there is one.
    pub fn find(&self, name: &String) -> (r: Option<usize>)
        ensures
            match r {
                Some(h) => h < self.cities().len() && self.cities()[h as int].name@ == name@,
                None => !self.names().contains(name@),
            },
    {
        let mut i: usize = 0;
        while i < self.cities.len()
            invariant
                0 <= i <= self.cities@.len(),
                forall|j: int| 0 <= j < i ==> self.cities@[j].name@ != name@,
            decreases self.cities@.len() - i,
        {
            if self.cities[i].name == *name {
                return Some(i);
            }
            i = i + 1;
        }
        proof {
            if self.names().contains(name@) {
                let j = choose|j: int| 0 <= j < self.names().len() && self.names()[j] == name@;
                assert(self.cities@[j].name@ == name@);
            }
        }
        None
    }

    /// The handle of the city called `name`, creating that city first if the
    /// name has not been seen.
    pub fn resolve(&mut self, name: &String) -> (h: usize)
        requires
            old(self).wf(),
        ensures
            old(self).resolves_to(name@, final(self), h as int),
    {
        match self.find(name) {
            Some(h) => {
                assert(self.names()[h as int] == name@);
                h
            },
            None => {
                let ghost before = self.cities@;
                self.cities.push(City::new(name.as_str()));
                proof {
                    assert(self.cities@.drop_last() =~= before);
                    assert(self.names() =~= city_names(before).push(name@));
                }
                self.cities.len() - 1
            },
        }
    }

    /// Records one more route end at the city with handle `h`.
    pub fn count_route(&mut self, h: usize)
        requires
            old(self).wf(),
            h < old(self).cities().len(),
            old(self).cities()[h as int].route_count < u32::MAX,
        ensures
            final(self).wf(),
            final(self).names() == old(self).names(),
            final(self).cities().len() == old(self).cities().len(),
            forall|k: int|
                0 <= k < old(self).cities().len() && k != h ==> #[trigger] final(self).cities()[k]
                    == old(self).cities()[k],
            final(self).cities()[h as int].name == old(self).cities()[h as int].name,
            final(self).cities()[h as int].route_count == old(self).cities()[h as int].route_count
                + 1,
    {
        let ghost before = self.cities@;
        let c = City { name: self.cities[h].name.clone(), route_count: self.cities[h].route_count + 1 };
        self.cities.set(h, c);
        assert(self.names() =~= city_names(before));
    }

    /// Hands over the cities, in the order of first resolution.
    pub fn into_cities(self) -> (v: Vec<City>)
        ensures
            v@ == self.cities(),
    {
        self.cities
    }
}

/// Resolving a name a second time gives the handle of the first time and
/// leaves the registry as it was.
pub proof fn lemma_resolve_idempotent(
    r0: &CityRegistry,
    r1: &CityRegistry,
    r2: &CityRegistry,
    name: Seq<char>,
    h1: int,
    h2: int,
)
    requires
        r0.wf(),
        r0.resolves_to(name, r1, h1),
        r1.resolves_to(name, r2, h2),
    ensures
        h2 == h1,
        r2.cities() == r1.cities(),
{
    assert(r1.names()[h1] == name);
    assert(r1.names()[h2] == name);
}

} // verus!
