//! The approximate liveness set: a cuckoo filter plus an exact count of
//! the distinct identifiers it was told about. The sweep uses it as a
//! cheap oracle for "this id is probably pinned"; the persisted alias
//! records stay authoritative.
use vstd::prelude::*;

use crate::block::Error;
use crate::id::Id;

verus! {

#[verifier::external_type_specification]
#[verifier::external_body]
#[verifier::reject_recursive_types(H)]
pub struct ExCuckooFilter<H>(cuckoofilter::CuckooFilter<H>);

#[verifier::external_type_specification]
#[verifier::external_body]
pub struct ExFnvHasher(fnv::FnvHasher);

/// The identifiers a filter currently reports as present. Membership may
/// be a false positive (fingerprints collide) but an identifier that was
/// added and not deleted keeps reporting present.
pub uninterp spec fn filter_reported(f: cuckoofilter::CuckooFilter<fnv::FnvHasher>) -> Set<u64>;

/// Relies on CuckooFilter::with_capacity: a fresh filter has empty
/// buckets, so it reports nothing as present.
#[verifier::external_body]
fn filter_new(cap: usize) -> (r: cuckoofilter::CuckooFilter<fnv::FnvHasher>)
    ensures
        filter_reported(r) =~= Set::<u64>::empty(),
{
    cuckoofilter::CuckooFilter::with_capacity(cap)
}

/// Relies on CuckooFilter::contains: a fingerprint lookup in the two
/// buckets the hashed identifier maps to.
#[verifier::external_body]
fn filter_contains(f: &cuckoofilter::CuckooFilter<fnv::FnvHasher>, id: u64) -> (r: bool)
    ensures
        r == filter_reported(*f).contains(id),
{
    f.contains(&id)
}

/// Relies on CuckooFilter::add: on success the identifier's fingerprint
/// sits in one of its buckets (relocations keep every stored fingerprint
/// findable); on failure the eviction chain dropped one fingerprint, so
/// nothing new beyond the added identifier can report present.
#[verifier::external_body]
fn filter_add(f: &mut cuckoofilter::CuckooFilter<fnv::FnvHasher>, id: u64) -> (r: bool)
    ensures
        r ==> filter_reported(*final(f)).contains(id),
        r ==> forall|x: u64|
            filter_reported(*old(f)).contains(x) ==> filter_reported(*final(f)).contains(x),
        !r ==> forall|x: u64|
            filter_reported(*final(f)).contains(x) ==> filter_reported(*old(f)).contains(x) || x
                == id,
{
    f.add(&id).is_ok()
}

/// Relies on CuckooFilter::delete: it removes one occurrence of the
/// identifier's fingerprint and returns whether one was found, which is
/// exactly what `contains` would have reported; it never adds anything.
#[verifier::external_body]
fn filter_delete(f: &mut cuckoofilter::CuckooFilter<fnv::FnvHasher>, id: u64) -> (r: bool)
    ensures
        r == filter_reported(*old(f)).contains(id),
        forall|x: u64|
            filter_reported(*final(f)).contains(x) ==> filter_reported(*old(f)).contains(x),
        !r ==> filter_reported(*final(f)) =~= filter_reported(*old(f)),
{
    f.delete(&id)
}

/// The capacity the default constructor asks of the filter; the crate
/// rounds it to a number of four-slot buckets.
pub const DEFAULT_LIVE_CAPACITY: usize = 1048575;

/// An approximate multiset of internal identifiers with an exact count
/// of distinct members, within the filter's false-positive rate.
pub struct LiveSet {
    filter: cuckoofilter::CuckooFilter<fnv::FnvHasher>,
    distinct: usize,
}

impl LiveSet {
    /// The identifiers the backing filter reports as present.
    pub closed spec fn reported(&self) -> Set<u64> {
        filter_reported(self.filter)
    }

    /// The exact distinct count the set maintains.
    pub closed spec fn distinct_count(&self) -> nat {
        self.distinct as nat
    }

    /// A live set over a filter of the default capacity.
    pub fn new() -> (r: LiveSet)
        ensures
            r.reported() =~= Set::<u64>::empty(),
            r.distinct_count() == 0,
    {
        LiveSet::with_capacity(DEFAULT_LIVE_CAPACITY)
    }

    /// A live set over a filter sized for about `cap` members.
    pub fn with_capacity(cap: usize) -> (r: LiveSet)
        ensures
            r.reported() =~= Set::<u64>::empty(),
            r.distinct_count() == 0,
    {
        LiveSet { filter: filter_new(cap), distinct: 0 }
    }

    /// The distinct count.
    pub fn len(&self) -> (r: usize)
        ensures
            r == self.distinct_count(),
    {
        self.distinct
    }

    /// Whether the set reports `id` as present. May answer true for an
    /// identifier never added, never false for one added and not deleted.
    pub fn contains(&self, id: &Id) -> (r: bool)
        ensures
            r == self.reported().contains(id@),
    {
        filter_contains(&self.filter, id.to_u64())
    }

    /// Add an identifier. The distinct count grows exactly when the
    /// filter did not already report the identifier. Fails only when the
    /// filter rejects the insertion after its eviction chain; the count
    /// keeps the bump in that case.
    pub fn add(&mut self, id: &Id) -> (r: Result<(), Error>)
        requires
            old(self).distinct_count() < usize::MAX,
        ensures
            final(self).distinct_count() == old(self).distinct_count() + (if old(self).reported().contains(id@) {
                0int
            } else {
                1int
            }),
            r is Ok ==> final(self).reported().contains(id@),
            r is Ok ==> forall|x: u64|
                old(self).reported().contains(x) ==> final(self).reported().contains(x),
            r is Err ==> r == Err::<(), Error>(Error::FilterSaturated),
            r is Err ==> forall|x: u64|
                final(self).reported().contains(x) ==> old(self).reported().contains(x) || x
                    == id@,
    {
        let v = id.to_u64();
        if !filter_contains(&self.filter, v) {
            self.distinct = self.distinct + 1;
        }
        if filter_add(&mut self.filter, v) {
            Ok(())
        } else {
            Err(Error::FilterSaturated)
        }
    }

    /// Delete one occurrence of an identifier. Missing identifiers are
    /// left alone; the distinct count drops exactly when the removed
    /// occurrence was the last one the filter could still see.
    pub fn delete(&mut self, id: &Id)
        ensures
            forall|x: u64|
                final(self).reported().contains(x) ==> old(self).reported().contains(x),
            !old(self).reported().contains(id@) ==> final(self).reported() =~= old(self).reported()
                && final(self).distinct_count() == old(self).distinct_count(),
            final(self).distinct_count() == (if old(self).reported().contains(id@)
                && !final(self).reported().contains(id@) && old(self).distinct_count() > 0 {
                old(self).distinct_count() - 1
            } else {
                old(self).distinct_count() as int
            }),
    {
        let v = id.to_u64();
        let removed = filter_delete(&mut self.filter, v);
        if removed && !filter_contains(&self.filter, v) && self.distinct > 0 {
            self.distinct = self.distinct - 1;
        }
    }
}

} // verus!
