//! The boundary store: one entry per country, each a name and the ordered
//! vertices of its boundary. Names are unique up to ASCII case, and the
//! store is only ever grown, one country at a time.

use vstd::prelude::*;

use crate::geometry::BoundaryPoint;
use crate::text::eq_ignore_case;
use crate::text::fold_lower;

verus! {

/// One country: its name and its boundary vertices in extraction order.
pub struct CountryBoundary {
    pub name: String,
    pub points: Vec<BoundaryPoint>,
}

/// No two countries of the store share a name, even up to ASCII case.
pub open spec fn store_wf(s: Seq<CountryBoundary>) -> bool {
    forall|i: int, j: int|
        0 <= i < j < s.len() ==> fold_lower(#[trigger] s[i].name@) != fold_lower(
            #[trigger] s[j].name@,
        )
}

/// Names equal up to ASCII case pick out one entry of a well-formed
/// store.
pub proof fn lemma_store_fold_name_index(s: Seq<CountryBoundary>, i: int, j: int)
    requires
        store_wf(s),
        0 <= i < s.len(),
        0 <= j < s.len(),
        fold_lower(s[i].name@) == fold_lower(s[j].name@),
    ensures
        i == j,
{
}

/// Equal names pick out one entry of a well-formed store.
pub proof fn lemma_store_name_index(s: Seq<CountryBoundary>, i: int, j: int)
    requires
        store_wf(s),
        0 <= i < s.len(),
        0 <= j < s.len(),
        s[i].name@ == s[j].name@,
    ensures
        i == j,
{
}

/// The table of all known country boundaries.
pub struct BoundaryStore {
    pub(crate) countries: Vec<CountryBoundary>,
}

impl View for BoundaryStore {
    type V = Seq<CountryBoundary>;

    closed spec fn view(&self) -> Seq<CountryBoundary> {
        self.countries@
    }
}

impl BoundaryStore {
    /// The store's internal invariant.
    pub open spec fn wf(&self) -> bool {
        store_wf(self@)
    }

    /// An empty store.
    pub fn new() -> (r: BoundaryStore)
        ensures
            r.wf(),
            r@ == Seq::<CountryBoundary>::empty(),
    {
        BoundaryStore { countries: Vec::new() }
    }

    /// How many countries the store holds.
    pub fn len(&self) -> (r: usize)
        ensures
            r == self@.len(),
    {
        self.countries.len()
    }

    /// The name of the country at `i`.
    pub fn country_name(&self, i: usize) -> (r: &String)
        requires
            i < self@.len(),
        ensures
            r@ == self@[i as int].name@,
    {
        &self.countries[i].name
    }

    /// The boundary vertices of the country at `i`.
    pub fn country_points(&self, i: usize) -> (r: &Vec<BoundaryPoint>)
        requires
            i < self@.len(),
        ensures
            r@ == self@[i as int].points@,
    {
        &self.countries[i].points
    }

    /// Adds one country. A name already present (up to ASCII case) is
    /// refused, so that every name picks out one entry.
    pub fn add_country(&mut self, name: String, points: Vec<BoundaryPoint>) -> (r: bool)
        requires
            old(self).wf(),
        ensures
            final(self).wf(),
            r ==> final(self)@ == old(self)@.push(
                CountryBoundary { name: name, points: points },
            ) && (forall|i: int|
                0 <= i < old(self)@.len() ==> fold_lower(
                    #[trigger] old(self)@[i].name@,
                ) != fold_lower(name@)),
            !r ==> final(self)@ == old(self)@ && (exists|i: int|
                0 <= i < old(self)@.len() && fold_lower(#[trigger] old(self)@[i].name@)
                    == fold_lower(name@)),
    {
        let mut i: usize = 0;
        while i < self.countries.len()
            invariant
                self@ == old(self)@,
                self.wf(),
                i <= self@.len(),
                forall|j: int|
                    0 <= j < i ==> fold_lower(#[trigger] self@[j].name@) != fold_lower(name@),
            decreases self@.len() - i,
        {
            if eq_ignore_case(self.countries[i].name.as_str(), name.as_str()) {
                return false;
            }
            i = i + 1;
        }
        self.countries.push(CountryBoundary { name, points });
        true
    }

    /// The index of the country with this name, compared without regard
    /// to ASCII case, or `None` when no country has it.
    pub fn find_country(&self, name: &str) -> (r: Option<usize>)
        ensures
            match r {
                Some(i) => i < self@.len() && fold_lower(self@[i as int].name@) == fold_lower(
                    name@,
                ),
                None => forall|i: int|
                    0 <= i < self@.len() ==> fold_lower(#[trigger] self@[i].name@) != fold_lower(
                        name@,
                    ),
            },
    {
        let mut i: usize = 0;
        while i < self.countries.len()
            invariant
                i <= self@.len(),
                forall|j: int|
                    0 <= j < i ==> fold_lower(#[trigger] self@[j].name@) != fold_lower(name@),
            decreases self@.len() - i,
        {
            if eq_ignore_case(self.countries[i].name.as_str(), name) {
                return Some(i);
            }
            i = i + 1;
        }
        None
    }
}

} // verus!
