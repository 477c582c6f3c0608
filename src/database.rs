//! The registry of named scalable filters: warm filters live in memory, cold
//! ones are known by name only, their state being on disk.
use crate::filter::{
    set_outcome, Fpp, Geometry, ScalableBloomFilter, ScalableView, ScaleFactor, SetError, StageRequest,
    after_check, contains, hash_ok, sizing_ok,
};
use vstd::prelude::*;

verus! {

/// Seconds without access after which a warm filter turns cold.
pub const IDLE_SECONDS: i64 = 3600;

/// The model of the registry.
pub struct DatabaseView {
    pub warm: Seq<ScalableView>,
    pub cold: Seq<Seq<char>>,
}

/// Whether a warm filter is named `name`.
pub open spec fn is_warm(v: DatabaseView, name: Seq<char>) -> bool {
    exists|i: int| 0 <= i < v.warm.len() && #[trigger] v.warm[i].name == name
}

/// Whether `name` is cold.
pub open spec fn is_cold(v: DatabaseView, name: Seq<char>) -> bool {
    v.cold.contains(name)
}

/// Whether a filter has gone unused for the idle period at time `now`.
pub open spec fn is_idle(f: ScalableView, now: int) -> bool {
    now - f.last_access_time >= IDLE_SECONDS
}

/// The warm filters that stay warm at time `now`, in order.
pub open spec fn kept(warm: Seq<ScalableView>, now: int) -> Seq<ScalableView>
    decreases warm.len(),
{
    if warm.len() == 0 {
        Seq::empty()
    } else if is_idle(warm[0], now) {
        kept(warm.drop_first(), now)
    } else {
        seq![warm[0]] + kept(warm.drop_first(), now)
    }
}

/// The warm filters that turn cold at time `now`, newest position first.
pub open spec fn evicted(warm: Seq<ScalableView>, now: int) -> Seq<ScalableView>
    decreases warm.len(),
{
    if warm.len() == 0 {
        Seq::empty()
    } else if is_idle(warm[0], now) {
        evicted(warm.drop_first(), now).push(warm[0])
    } else {
        evicted(warm.drop_first(), now)
    }
}

/// Why a request on a named filter failed.
#[derive(Clone, Copy, Debug, PartialEq, Eq)]
pub enum DbError {
    /// No warm filter has the name.
    Unknown,
    /// The filter refused the key.
    Insert(SetError),
}

/// A filter's insertion result as the registry reports it.
pub open spec fn lift(r: Result<bool, SetError>) -> Result<bool, DbError> {
    match r {
        Ok(b) => Ok(b),
        Err(e) => Err(DbError::Insert(e)),
    }
}

/// Named scalable filters, warm and cold.
pub struct FilterDatabase {
    filters: Vec<ScalableBloomFilter>,
    cold_filters: Vec<String>,
}

impl View for FilterDatabase {
    type V = DatabaseView;

    closed spec fn view(&self) -> DatabaseView {
        DatabaseView {
            warm: self.filters@.map_values(|f: ScalableBloomFilter| f@),
            cold: self.cold_filters@.map_values(|s: String| s@),
        }
    }
}

/// Names are unique among the warm filters and among the cold ones, and no
/// name is both warm and cold.
pub open spec fn db_wf(v: DatabaseView) -> bool {
    &&& forall|i: int, j: int| 0 <= i < j < v.warm.len() ==> v.warm[i].name != v.warm[j].name
    &&& forall|i: int, j: int| 0 <= i < j < v.cold.len() ==> v.cold[i] != v.cold[j]
    &&& forall|i: int| 0 <= i < v.warm.len() ==> !v.cold.contains(#[trigger] v.warm[i].name)
}

impl FilterDatabase {
    pub closed spec fn wf(&self) -> bool {
        &&& forall|i: int| 0 <= i < self.filters@.len() ==> (#[trigger] self.filters@[i]).wf()
        &&& db_wf(self@)
    }

    /// A well-formed registry has unique names and no name both warm and cold.
    pub proof fn lemma_unique(&self)
        requires
            self.wf(),
        ensures
            db_wf(self@),
    {
    }

    proof fn lemma_views(&self)
        ensures
            self@.warm.len() == self.filters@.len(),
            forall|i: int| 0 <= i < self.filters@.len() ==> #[trigger] self@.warm[i] == self.filters@[i]@,
            self@.cold.len() == self.cold_filters@.len(),
            forall|i: int| 0 <= i < self.cold_filters@.len() ==> #[trigger] self@.cold[i] == self.cold_filters@[i]@,
    {
    }

    /// An empty registry.
    pub fn new() -> (r: FilterDatabase)
        ensures
            r.wf(),
            r@.warm == Seq::<ScalableView>::empty(),
            r@.cold == Seq::<Seq<char>>::empty(),
    {
        let r = FilterDatabase { filters: Vec::new(), cold_filters: Vec::new() };
        assert(r@.warm =~= Seq::<ScalableView>::empty());
        assert(r@.cold =~= Seq::<Seq<char>>::empty());
        r
    }

    /// The position of the warm filter named `name`.
    fn find_warm(&self, name: &String) -> (r: Option<usize>)
        ensures
            r is None ==> !is_warm(self@, name@),
            r matches Some(i) ==> i < self@.warm.len() && self@.warm[i as int].name == name@,
    {
        proof { self.lemma_views(); }
        let mut i: usize = 0;
        while i < self.filters.len()
            invariant
                i <= self.filters@.len(),
                self@.warm.len() == self.filters@.len(),
                forall|j: int| 0 <= j < self.filters@.len() ==> #[trigger] self@.warm[j] == self.filters@[j]@,
                forall|j: int| 0 <= j < i ==> #[trigger] self@.warm[j].name != name@,
            decreases self.filters@.len() - i,
        {
            if name.eq(self.filters[i].name()) {
                return Some(i);
            }
            i = i + 1;
        }
        None
    }

    /// Whether `name` is warm.
    pub fn is_warm(&self, name: &String) -> (r: bool)
        ensures
            r == is_warm(self@, name@),
    {
        self.find_warm(name).is_some()
    }

    /// Whether `name` is cold.
    pub fn is_cold(&self, name: &String) -> (r: bool)
        ensures
            r == is_cold(self@, name@),
    {
        proof { self.lemma_views(); }
        let mut i: usize = 0;
        while i < self.cold_filters.len()
            invariant
                i <= self.cold_filters@.len(),
                self@.cold.len() == self.cold_filters@.len(),
                forall|j: int| 0 <= j < self.cold_filters@.len() ==> #[trigger] self@.cold[j] == self.cold_filters@[j]@,
                forall|j: int| 0 <= j < i ==> #[trigger] self@.cold[j] != name@,
            decreases self.cold_filters@.len() - i,
        {
            if name.eq(&self.cold_filters[i]) {
                assert(self@.cold[i as int] == name@);
                return true;
            }
            i = i + 1;
        }
        false
    }

    /// The warm filter named `name`.
    pub fn get(&self, name: &String) -> (r: Option<&ScalableBloomFilter>)
        requires
            self.wf(),
        ensures
            r is None ==> !is_warm(self@, name@),
            r matches Some(f) ==> f.wf() && exists|i: int| 0 <= i < self@.warm.len() && self@.warm[i] == f@ && f@.name == name@,
    {
        proof { self.lemma_views(); }
        match self.find_warm(name) {
            Some(i) => {
                assert(self.filters@[i as int].wf());
                Some(&self.filters[i])
            },
            None => None,
        }
    }

    /// The warm filters, in order.
    pub fn warm_filters(&self) -> (r: &Vec<ScalableBloomFilter>)
        requires
            self.wf(),
        ensures
            r@.len() == self@.warm.len(),
            forall|i: int| 0 <= i < r@.len() ==> #[trigger] r@[i]@ == self@.warm[i] && r@[i].wf(),
    {
        proof { self.lemma_views(); }
        &self.filters
    }

    /// Registers an empty filter under `name`, with the small scale factor,
    /// unless the name is already warm or cold; returns whether it did.
    pub fn create(&mut self, name: String, capacity: usize, fpp: Fpp, now: i64) -> (r: bool)
        requires
            old(self).wf(),
        ensures
            final(self).wf(),
            r == !(is_warm(old(self)@, name@) || is_cold(old(self)@, name@)),
            r ==> final(self)@ == (DatabaseView {
                warm: old(self)@.warm.push(ScalableView {
                    name: name@,
                    initial_capacity: capacity as nat,
                    stages: Seq::empty(),
                    fpp,
                    scale_factor: ScaleFactor::SmallScaleSize,
                    creation_time: now as int,
                    last_access_time: now as int,
                }),
                cold: old(self)@.cold,
            }),
            !r ==> final(self)@ == old(self)@,
    {
        if self.is_warm(&name) || self.is_cold(&name) {
            return false;
        }
        proof { self.lemma_views(); }
        let ghost n = name@;
        let f = ScalableBloomFilter::new(name, capacity, fpp, ScaleFactor::SmallScaleSize, now);
        let ghost before = self.filters@;
        self.filters.push(f);
        proof {
            assert(self@.warm =~= old(self)@.warm.push(f@));
            assert(self@.cold =~= old(self)@.cold);
            assert forall|i: int| 0 <= i < self.filters@.len() implies (#[trigger] self.filters@[i]).wf() by {
                if i < before.len() {
                    assert(self.filters@[i] == before[i]);
                }
            }
            assert forall|i: int| 0 <= i < old(self)@.warm.len() implies old(self)@.warm[i].name != n by {
                if old(self)@.warm[i].name == n {
                    assert(is_warm(old(self)@, n));
                }
            }
        }
        true
    }

    /// Inserts `key` into the warm filter named `name`.
    pub fn set<H: Fn(&[u8], u32) -> u32, S: Fn(StageRequest) -> Geometry>(
        &mut self,
        name: &String,
        key: &[u8],
        hash: &H,
        sizing: &S,
        now: i64,
    ) -> (r: Result<bool, DbError>)
        requires
            old(self).wf(),
            hash_ok(hash),
            sizing_ok(sizing),
        ensures
            final(self).wf(),
            !is_warm(old(self)@, name@) ==> r == Err::<bool, DbError>(DbError::Unknown) && final(self)@ == old(self)@,
            forall|i: int| 0 <= i < old(self)@.warm.len() && #[trigger] old(self)@.warm[i].name == name@ ==> {
                let out = set_outcome(old(self)@.warm[i], hash, sizing, key);
                &&& r == lift(out.0)
                &&& final(self)@ == (DatabaseView {
                    warm: old(self)@.warm.update(i, ScalableView {
                        stages: out.1,
                        last_access_time: now as int,
                        ..old(self)@.warm[i]
                    }),
                    cold: old(self)@.cold,
                })
            },
    {
        proof { self.lemma_views(); }
        let i = match self.find_warm(name) {
            Some(i) => i,
            None => return Err(DbError::Unknown),
        };
        let ghost before = self.filters@;
        assert(before[i as int].wf());
        let res = self.filters[i].set(key, hash, sizing, now);
        proof { self.lemma_update(before, i as int); }
        match res {
            Ok(b) => Ok(b),
            Err(e) => Err(DbError::Insert(e)),
        }
    }

    /// Tests `key` against the warm filter named `name`.
    pub fn check<H: Fn(&[u8], u32) -> u32>(&mut self, name: &String, key: &[u8], hash: &H, now: i64) -> (r: Result<bool, DbError>)
        requires
            old(self).wf(),
            hash_ok(hash),
        ensures
            final(self).wf(),
            !is_warm(old(self)@, name@) ==> r == Err::<bool, DbError>(DbError::Unknown) && final(self)@ == old(self)@,
            forall|i: int| 0 <= i < old(self)@.warm.len() && #[trigger] old(self)@.warm[i].name == name@ ==> {
                &&& r == Ok::<bool, DbError>(contains(old(self)@.warm[i].stages, hash, key))
                &&& final(self)@ == (DatabaseView {
                    warm: old(self)@.warm.update(i, ScalableView {
                        stages: after_check(old(self)@.warm[i].stages, hash, key),
                        last_access_time: now as int,
                        ..old(self)@.warm[i]
                    }),
                    cold: old(self)@.cold,
                })
            },
    {
        proof { self.lemma_views(); }
        let i = match self.find_warm(name) {
            Some(i) => i,
            None => return Err(DbError::Unknown),
        };
        let ghost before = self.filters@;
        assert(before[i as int].wf());
        let r = self.filters[i].check(key, hash, now);
        proof { self.lemma_update(before, i as int); }
        Ok(r)
    }

    /// Clears the warm filter named `name`.
    pub fn clear(&mut self, name: &String, now: i64) -> (r: Result<(), DbError>)
        requires
            old(self).wf(),
        ensures
            final(self).wf(),
            !is_warm(old(self)@, name@) ==> r == Err::<(), DbError>(DbError::Unknown) && final(self)@ == old(self)@,
            forall|i: int| 0 <= i < old(self)@.warm.len() && #[trigger] old(self)@.warm[i].name == name@ ==> {
                &&& r is Ok
                &&& final(self)@ == (DatabaseView {
                    warm: old(self)@.warm.update(i, ScalableView {
                        stages: crate::filter::cleared(old(self)@.warm[i].stages),
                        last_access_time: now as int,
                        ..old(self)@.warm[i]
                    }),
                    cold: old(self)@.cold,
                })
            },
    {
        proof { self.lemma_views(); }
        let i = match self.find_warm(name) {
            Some(i) => i,
            None => return Err(DbError::Unknown),
        };
        let ghost before = self.filters@;
        assert(before[i as int].wf());
        self.filters[i].clear(now);
        proof {
            self.lemma_update(before, i as int);
            assert(self@.warm[i as int].stages =~= crate::filter::cleared(old(self)@.warm[i as int].stages));
        }
        Ok(())
    }

    /// After one warm filter changed in place, keeping its name.
    proof fn lemma_update(&self, before: Seq<ScalableBloomFilter>, i: int)
        requires
            0 <= i < before.len(),
            self.filters@.len() == before.len(),
            forall|j: int| 0 <= j < before.len() && j != i ==> #[trigger] self.filters@[j] == before[j],
            forall|j: int| 0 <= j < before.len() ==> (#[trigger] before[j]).wf(),
            self.filters@[i].wf(),
            self.filters@[i]@.name == before[i]@.name,
            db_wf(DatabaseView { warm: before.map_values(|f: ScalableBloomFilter| f@), cold: self@.cold }),
        ensures
            self.wf(),
            self@.warm == before.map_values(|f: ScalableBloomFilter| f@).update(i, self.filters@[i]@),
    {
        let bv = before.map_values(|f: ScalableBloomFilter| f@);
        assert(self@.warm =~= bv.update(i, self.filters@[i]@));
        assert forall|j: int| 0 <= j < bv.len() implies #[trigger] self@.warm[j].name == bv[j].name by {}
        let db = DatabaseView { warm: bv, cold: self@.cold };
        assert(db_wf(db));
        assert forall|a: int, b: int| 0 <= a < b < self@.warm.len() implies self@.warm[a].name != self@.warm[b].name by {
            assert(self@.warm[a].name == bv[a].name);
            assert(self@.warm[b].name == bv[b].name);
            assert(db.warm[a].name != db.warm[b].name);
        }
        assert(db_wf(self@));
        assert forall|a: int| 0 <= a < self@.warm.len() implies !self@.cold.contains(#[trigger] self@.warm[a].name) by {
            assert(self@.warm[a].name == bv[a].name);
        }
        assert forall|j: int| 0 <= j < self.filters@.len() implies (#[trigger] self.filters@[j]).wf() by {
            if j != i {
                assert(self.filters@[j] == before[j]);
            }
        }
    }
}


impl FilterDatabase {
    /// Forgets the filter named `name`, warm or cold.
    pub fn drop_filter(&mut self, name: &String) -> (r: Result<(), DbError>)
        requires
            old(self).wf(),
        ensures
            final(self).wf(),
            r is Ok <==> (is_warm(old(self)@, name@) || is_cold(old(self)@, name@)),
            r is Err ==> r == Err::<(), DbError>(DbError::Unknown) && final(self)@ == old(self)@,
            forall|i: int| 0 <= i < old(self)@.warm.len() && #[trigger] old(self)@.warm[i].name == name@
                ==> final(self)@ == (DatabaseView { warm: old(self)@.warm.remove(i), cold: old(self)@.cold }),
            forall|j: int| 0 <= j < old(self)@.cold.len() && #[trigger] old(self)@.cold[j] == name@
                ==> final(self)@ == (DatabaseView { warm: old(self)@.warm, cold: old(self)@.cold.remove(j) }),
    {
        proof { self.lemma_views(); }
        match self.find_warm(name) {
            Some(i) => {
                let ghost before = self.filters@;
                let _ = self.filters.remove(i);
                proof {
                    assert(self@.warm =~= old(self)@.warm.remove(i as int));
                    assert(self@.cold =~= old(self)@.cold);
                    assert forall|j: int| 0 <= j < self.filters@.len() implies (#[trigger] self.filters@[j]).wf() by {
                        if j < i { assert(self.filters@[j] == before[j]); } else { assert(self.filters@[j] == before[j + 1]); }
                    }
                    assert forall|a: int, b: int| 0 <= a < b < self@.warm.len() implies self@.warm[a].name != self@.warm[b].name by {
                        let a0 = if a < i { a } else { a + 1 };
                        let b0 = if b < i { b } else { b + 1 };
                        assert(old(self)@.warm[a0].name != old(self)@.warm[b0].name);
                    }
                    assert forall|a: int| 0 <= a < self@.warm.len() implies !self@.cold.contains(#[trigger] self@.warm[a].name) by {
                        let a0 = if a < i { a } else { a + 1 };
                        assert(self@.warm[a] == old(self)@.warm[a0]);
                    }
                    assert(!is_cold(old(self)@, name@));
                    assert forall|j: int| 0 <= j < old(self)@.cold.len() implies #[trigger] old(self)@.cold[j] != name@ by {
                        assert(old(self)@.cold.contains(old(self)@.cold[j]));
                    }
                    assert forall|k: int| 0 <= k < old(self)@.warm.len() && #[trigger] old(self)@.warm[k].name == name@ implies k == i by {
                        if k != i {
                            if k < i { assert(old(self)@.warm[k].name != old(self)@.warm[i as int].name); }
                            else { assert(old(self)@.warm[i as int].name != old(self)@.warm[k].name); }
                        }
                    }
                }
                Ok(())
            },
            None => {
                let mut j: usize = 0;
                while j < self.cold_filters.len()
                    invariant
                        self.wf(),
                        self@ == old(self)@,
                        self.filters@ == old(self).filters@,
                        self.cold_filters@ == old(self).cold_filters@,
                        !is_warm(old(self)@, name@),
                        j <= self.cold_filters@.len(),
                        self@.cold.len() == self.cold_filters@.len(),
                        forall|k: int| 0 <= k < self.cold_filters@.len() ==> #[trigger] self@.cold[k] == self.cold_filters@[k]@,
                        forall|k: int| 0 <= k < j ==> #[trigger] self@.cold[k] != name@,
                    decreases self.cold_filters@.len() - j,
                {
                    if name.eq(&self.cold_filters[j]) {
                        let _ = self.cold_filters.remove(j);
                        proof {
                            let oc = old(self)@.cold;
                            assert(self@.cold =~= oc.remove(j as int));
                            assert(self@.warm =~= old(self)@.warm);
                            assert forall|a: int, b: int| 0 <= a < b < self@.cold.len() implies self@.cold[a] != self@.cold[b] by {
                                let a0 = if a < j { a } else { a + 1 };
                                let b0 = if b < j { b } else { b + 1 };
                                assert(oc[a0] != oc[b0]);
                            }
                            assert forall|a: int| 0 <= a < self@.warm.len() implies !self@.cold.contains(#[trigger] self@.warm[a].name) by {
                                if self@.cold.contains(self@.warm[a].name) {
                                    let c = choose|c: int| 0 <= c < self@.cold.len() && self@.cold[c] == self@.warm[a].name;
                                    let c0 = if c < j { c } else { c + 1 };
                                    assert(oc.contains(oc[c0]));
                                    assert(!oc.contains(old(self)@.warm[a].name));
                                }
                            }
                            assert(oc.contains(oc[j as int]));
                            assert forall|k: int| 0 <= k < oc.len() && #[trigger] oc[k] == name@ implies k == j by {
                                if k != j {
                                    if k < j { assert(oc[k] != oc[j as int]); } else { assert(oc[j as int] != oc[k]); }
                                }
                            }
                        }
                        return Ok(());
                    }
                    j = j + 1;
                }
                proof {
                    assert(!is_cold(old(self)@, name@)) by {
                        if old(self)@.cold.contains(name@) {
                            let c = choose|c: int| 0 <= c < old(self)@.cold.len() && old(self)@.cold[c] == name@;
                            assert(self@.cold[c] != name@);
                        }
                    }
                }
                Err(DbError::Unknown)
            },
        }
    }

    /// Takes a cold filter back into memory: its name leaves the cold set and
    /// the filter, as loaded, becomes warm.
    pub fn promote(&mut self, filter: ScalableBloomFilter) -> (r: bool)
        requires
            old(self).wf(),
            filter.wf(),
        ensures
            final(self).wf(),
            r == is_cold(old(self)@, filter@.name),
            !r ==> final(self)@ == old(self)@,
            forall|j: int| 0 <= j < old(self)@.cold.len() && #[trigger] old(self)@.cold[j] == filter@.name
                ==> final(self)@ == (DatabaseView { warm: old(self)@.warm.push(filter@), cold: old(self)@.cold.remove(j) }),
    {
        let ghost fv = filter@;
        let name = filter.name().clone();
        if !self.is_cold(&name) {
            return false;
        }
        let r = self.drop_filter(&name);
        proof {
            self.lemma_views();
            assert(!is_warm(old(self)@, fv.name)) by {
                if is_warm(old(self)@, fv.name) {
                    let i = choose|i: int| 0 <= i < old(self)@.warm.len() && #[trigger] old(self)@.warm[i].name == fv.name;
                    assert(!old(self)@.cold.contains(old(self)@.warm[i].name));
                }
            }
        }
        let ghost mid = self@;
        let ghost before = self.filters@;
        self.filters.push(filter);
        proof {
            assert(self@.warm =~= mid.warm.push(fv));
            assert(self@.cold =~= mid.cold);
            assert forall|j: int| 0 <= j < self.filters@.len() implies (#[trigger] self.filters@[j]).wf() by {
                if j < before.len() { assert(self.filters@[j] == before[j]); }
            }
            let c = choose|c: int| 0 <= c < old(self)@.cold.len() && old(self)@.cold[c] == fv.name;
            assert(old(self)@.cold[c] == fv.name);
            assert(mid == (DatabaseView { warm: old(self)@.warm, cold: old(self)@.cold.remove(c) }));
            assert forall|k: int| 0 <= k < mid.cold.len() implies #[trigger] mid.cold[k] != fv.name by {
                let k0 = if k < c { k } else { k + 1 };
                if k0 < c { assert(old(self)@.cold[k0] != old(self)@.cold[c]); } else { assert(old(self)@.cold[c] != old(self)@.cold[k0]); }
            }
            assert forall|a: int| 0 <= a < mid.warm.len() implies #[trigger] mid.warm[a].name != fv.name by {
                assert(!old(self)@.cold.contains(old(self)@.warm[a].name));
                assert(old(self)@.cold.contains(old(self)@.cold[c]));
            }
            assert forall|a: int, b: int| 0 <= a < b < self@.warm.len() implies self@.warm[a].name != self@.warm[b].name by {
                if b == mid.warm.len() { assert(self@.warm[b] == fv); }
            }
            assert forall|a: int| 0 <= a < self@.warm.len() implies !self@.cold.contains(#[trigger] self@.warm[a].name) by {
                if a == mid.warm.len() {
                    if self@.cold.contains(fv.name) {
                        let k = choose|k: int| 0 <= k < mid.cold.len() && mid.cold[k] == fv.name;
                    }
                } else {
                    assert(self@.warm[a] == mid.warm[a]);
                }
            }
        }
        true
    }

    /// Registers a filter read at startup, as warm, unless its name is taken;
    /// returns whether it did.
    pub fn insert_loaded(&mut self, filter: ScalableBloomFilter) -> (r: bool)
        requires
            old(self).wf(),
            filter.wf(),
        ensures
            final(self).wf(),
            r == !(is_warm(old(self)@, filter@.name) || is_cold(old(self)@, filter@.name)),
            r ==> final(self)@ == (DatabaseView { warm: old(self)@.warm.push(filter@), cold: old(self)@.cold }),
            !r ==> final(self)@ == old(self)@,
    {
        let ghost fv = filter@;
        let name = filter.name().clone();
        if self.is_warm(&name) || self.is_cold(&name) {
            return false;
        }
        proof { self.lemma_views(); }
        let ghost before = self.filters@;
        self.filters.push(filter);
        proof {
            assert(self@.warm =~= old(self)@.warm.push(fv));
            assert(self@.cold =~= old(self)@.cold);
            assert forall|i: int| 0 <= i < self.filters@.len() implies (#[trigger] self.filters@[i]).wf() by {
                if i < before.len() { assert(self.filters@[i] == before[i]); }
            }
            assert forall|i: int| 0 <= i < old(self)@.warm.len() implies old(self)@.warm[i].name != fv.name by {
                if old(self)@.warm[i].name == fv.name { assert(is_warm(old(self)@, fv.name)); }
            }
        }
        true
    }
}


/// The names of a sequence of filters.
pub open spec fn names(fs: Seq<ScalableView>) -> Seq<Seq<char>> {
    fs.map_values(|f: ScalableView| f.name)
}

impl FilterDatabase {
    /// Turns cold every warm filter unused for the idle period at `now`:
    /// it leaves memory, its name joins the cold set, and it is returned so
    /// that it can be written to disk.
    pub fn sweep(&mut self, now: i64) -> (r: Vec<ScalableBloomFilter>)
        requires
            old(self).wf(),
        ensures
            final(self).wf(),
            final(self)@.warm == kept(old(self)@.warm, now as int),
            r@.map_values(|f: ScalableBloomFilter| f@) == evicted(old(self)@.warm, now as int),
            final(self)@.cold == old(self)@.cold + names(evicted(old(self)@.warm, now as int)),
            forall|k: int| 0 <= k < r@.len() ==> (#[trigger] r@[k]).wf(),
    {
        proof { self.lemma_views(); }
        let ghost orig = self@.warm;
        let n = self.filters.len();
        let mut i: usize = n;
        let mut out: Vec<ScalableBloomFilter> = Vec::new();
        proof {
            assert(orig.subrange(0, n as int) =~= orig);
            assert(orig.subrange(n as int, n as int) =~= Seq::<ScalableView>::empty());
            assert(out@.map_values(|f: ScalableBloomFilter| f@) =~= Seq::<ScalableView>::empty());
            assert(old(self)@.cold + names(Seq::<ScalableView>::empty()) =~= old(self)@.cold);
            assert(self@.warm =~= orig.subrange(0, n as int) + Seq::<ScalableView>::empty());
        }
        while i > 0
            invariant
                self.wf(),
                i <= n,
                orig == old(self)@.warm,
                orig.len() == n,
                self@.warm == orig.subrange(0, i as int) + kept(orig.subrange(i as int, n as int), now as int),
                out@.map_values(|f: ScalableBloomFilter| f@) == evicted(orig.subrange(i as int, n as int), now as int),
                self@.cold == old(self)@.cold + names(evicted(orig.subrange(i as int, n as int), now as int)),
                forall|k: int| 0 <= k < out@.len() ==> (#[trigger] out@[k]).wf(),
            decreases i,
        {
            i = i - 1;
            proof { self.lemma_views(); }
            let ghost w = self@;
            let ghost tail = orig.subrange(i as int, n as int);
            proof {
                assert(tail.drop_first() =~= orig.subrange(i + 1, n as int));
                assert(tail[0] == orig[i as int]);
                assert(w.warm[i as int] == orig[i as int]);
            }
            let last = self.filters[i].last_access_time();
            if (now as i128) - (last as i128) >= IDLE_SECONDS as i128 {
                let ghost before = self.filters@;
                let ghost before_out = out@;
                let f = self.filters.remove(i);
                let name = f.name().clone();
                let ghost fv = f@;
                proof {
                    assert(fv == w.warm[i as int]);
                    assert(before[i as int].wf());
                }
                self.cold_filters.push(name);
                out.push(f);
                proof {
                    assert(self@.warm =~= w.warm.remove(i as int));
                    assert(self@.cold =~= w.cold.push(fv.name));
                    assert(self@.warm =~= orig.subrange(0, i as int) + kept(tail, now as int));
                    assert(out@.map_values(|f: ScalableBloomFilter| f@) =~= before_out.map_values(|f: ScalableBloomFilter| f@).push(fv));
                    assert(names(evicted(tail, now as int)) =~= names(evicted(orig.subrange(i + 1, n as int), now as int)).push(fv.name));
                    assert(self@.cold =~= old(self)@.cold + names(evicted(tail, now as int)));
                    assert forall|j: int| 0 <= j < self.filters@.len() implies (#[trigger] self.filters@[j]).wf() by {
                        if j < i { assert(self.filters@[j] == before[j]); } else { assert(self.filters@[j] == before[j + 1]); }
                    }
                    assert forall|k: int| 0 <= k < out@.len() implies (#[trigger] out@[k]).wf() by {
                        if k < before_out.len() { assert(out@[k] == before_out[k]); }
                    }
                    assert forall|a: int, b: int| 0 <= a < b < self@.warm.len() implies self@.warm[a].name != self@.warm[b].name by {
                        let a0 = if a < i { a } else { a + 1 };
                        let b0 = if b < i { b } else { b + 1 };
                        assert(w.warm[a0].name != w.warm[b0].name);
                    }
                    assert(!w.cold.contains(fv.name));
                    assert forall|a: int, b: int| 0 <= a < b < self@.cold.len() implies self@.cold[a] != self@.cold[b] by {
                        if b == w.cold.len() {
                            assert(w.cold.contains(w.cold[a]));
                        }
                    }
                    assert forall|a: int| 0 <= a < self@.warm.len() implies !self@.cold.contains(#[trigger] self@.warm[a].name) by {
                        let a0 = if a < i { a } else { a + 1 };
                        assert(self@.warm[a] == w.warm[a0]);
                        assert(!w.cold.contains(w.warm[a0].name));
                        if a0 < i { assert(w.warm[a0].name != w.warm[i as int].name); }
                        else { assert(w.warm[i as int].name != w.warm[a0].name); }
                        if self@.cold.contains(self@.warm[a].name) {
                            let c = choose|c: int| 0 <= c < self@.cold.len() && self@.cold[c] == self@.warm[a].name;
                            if c < w.cold.len() { assert(w.cold[c] == self@.cold[c]); }
                        }
                    }
                }
            } else {
                proof {
                    assert(orig.subrange(0, i + 1) =~= orig.subrange(0, i as int).push(orig[i as int]));
                    assert(self@.warm =~= orig.subrange(0, i as int) + kept(tail, now as int));
                }
            }
        }
        proof {
            assert(orig.subrange(0, 0) =~= Seq::<ScalableView>::empty());
            assert(orig.subrange(0, n as int) =~= orig);
            assert(self@.warm =~= kept(orig, now as int));
        }
        out
    }
}

} // verus!
