//! The key-to-statistics mapping that one worker owns.

use crate::aggregate::fold_in;
use crate::aggregate::lemma_merge_wf;
use crate::aggregate::merge_tallies;
use crate::aggregate::tally_wf;
use crate::aggregate::Tally;
use crate::stats::Stats;
use crate::stats::Summary;
use rustc_hash::FxBuildHasher;
use rustc_hash::FxHashMap;
use vstd::prelude::*;

verus! {

/// How many keys a new mapping has room for before it grows.
pub const INITIAL_CAPACITY: usize = 10000;

/// `rustc_hash::FxBuildHasher`, the hasher factory of the mapping.
#[verifier::external_type_specification]
#[verifier::external_body]
pub struct ExFxBuildHasher(rustc_hash::FxBuildHasher);

/// What a mapping holds: for each key, by its bytes, the accumulator stored
/// under it.
pub uninterp spec fn fx_entries(m: FxHashMap<Vec<u8>, Stats>) -> Map<Seq<u8>, Stats>;

/// `HashMap::with_capacity_and_hasher` with an `FxBuildHasher`: a mapping
/// that holds nothing.  The capacity is kept small, so that the size of the
/// first allocation cannot run over.
#[verifier::external_body]
fn fx_with_capacity(capacity: usize) -> (m: FxHashMap<Vec<u8>, Stats>)
    requires
        capacity <= 0x10000,
    ensures
        fx_entries(m) == (Map::<Seq<u8>, Stats>::empty()),
{
    FxHashMap::with_capacity_and_hasher(capacity, FxBuildHasher)
}

/// `HashMap::get_mut` on an `FxHashMap`: the slot of `key` where the mapping
/// holds one.  What is written through the slot is what the mapping holds
/// under `key` afterwards; nothing else in the mapping changes.
#[verifier::external_body]
fn fx_get_mut<'a>(m: &'a mut FxHashMap<Vec<u8>, Stats>, key: &[u8]) -> (slot: Option<
    &'a mut Stats,
>)
    ensures
        match slot {
            Some(s) => fx_entries(*old(m)).contains_key(key@) && *s == fx_entries(*old(m))[key@]
                && fx_entries(*final(m)) == fx_entries(*old(m)).insert(key@, *final(s)),
            None => !fx_entries(*old(m)).contains_key(key@) && fx_entries(*final(m))
                == fx_entries(*old(m)),
        },
{
    m.get_mut(key)
}

/// `HashMap::get` on an `FxHashMap`: what the mapping holds under `key`.
#[verifier::external_body]
fn fx_get(m: &FxHashMap<Vec<u8>, Stats>, key: &[u8]) -> (found: Option<Stats>)
    ensures
        match found {
            Some(s) => fx_entries(*m).contains_key(key@) && s == fx_entries(*m)[key@],
            None => !fx_entries(*m).contains_key(key@),
        },
{
    m.get(key).copied()
}

/// `HashMap::insert` on an `FxHashMap`: afterwards `key` maps to `stats` and
/// every other key is as before.
#[verifier::external_body]
fn fx_insert(m: &mut FxHashMap<Vec<u8>, Stats>, key: Vec<u8>, stats: Stats)
    ensures
        fx_entries(*final(m)) == fx_entries(*old(m)).insert(key@, stats),
{
    m.insert(key, stats);
}

/// `HashMap::into_iter` on an `FxHashMap`, collected: every entry of the
/// mapping once, in an order that is not fixed.
#[verifier::external_body]
fn fx_into_entries(m: FxHashMap<Vec<u8>, Stats>) -> (entries: Vec<(Vec<u8>, Stats)>)
    ensures
        lists_entries(entries@, fx_entries(m)),
{
    m.into_iter().collect()
}

/// `entries` lists what `m` holds: each entry of `m` once and nothing else.
pub open spec fn lists_entries(entries: Seq<(Vec<u8>, Stats)>, m: Map<Seq<u8>, Stats>) -> bool {
    &&& forall|i: int|
        0 <= i < entries.len() ==> m.contains_key(#[trigger] entries[i].0@) && m[entries[i].0@]
            == entries[i].1
    &&& forall|i: int, j: int|
        0 <= i < j < entries.len() ==> #[trigger] entries[i].0@ != #[trigger] entries[j].0@
    &&& forall|key: Seq<u8>| #[trigger]
        m.contains_key(key) ==> exists|i: int| 0 <= i < entries.len() && #[trigger] entries[i].0@ == key
}

/// A mapping from keys to their running statistics.
pub struct StationTable {
    map: FxHashMap<Vec<u8>, Stats>,
}

impl View for StationTable {
    type V = Tally;

    closed spec fn view(&self) -> Tally {
        fx_entries(self.map).map_values(|s: Stats| s@)
    }
}

impl StationTable {
    /// The accumulators as they are stored.
    pub closed spec fn stored(&self) -> Map<Seq<u8>, Stats> {
        fx_entries(self.map)
    }

    /// Every stored accumulator is well formed.
    pub open spec fn wf(&self) -> bool {
        tally_wf(self@)
    }

    /// The view holds the keys that are stored, each with the view of its
    /// accumulator.
    pub proof fn lemma_view(&self)
        ensures
            self@.dom() == self.stored().dom(),
            forall|key: Seq<u8>| #[trigger]
                self.stored().contains_key(key) ==> self@[key] == self.stored()[key]@,
    {
        assert(self@.dom() =~= self.stored().dom());
    }

    /// A stored count is a machine integer, so it is within the counter's
    /// range.
    pub proof fn lemma_counts_fit(&self)
        ensures
            forall|key: Seq<u8>| #[trigger] self@.contains_key(key) ==> self@[key].count <= u32::MAX,
    {
        self.lemma_view();
    }

    /// A mapping without keys.
    pub fn new() -> (t: StationTable)
        ensures
            t@ == Map::<Seq<u8>, Summary>::empty(),
            t.wf(),
    {
        let t = StationTable { map: fx_with_capacity(INITIAL_CAPACITY) };
        assert(t@ =~= Map::<Seq<u8>, Summary>::empty());
        t
    }

    /// What the mapping holds under `key`.
    pub fn get(&self, key: &[u8]) -> (found: Option<Stats>)
        ensures
            found is Some <==> self@.contains_key(key@),
            found is Some ==> found.unwrap()@ == self@[key@],
            found is Some ==> self.stored()[key@] == found.unwrap(),
    {
        proof {
            self.lemma_view();
        }
        fx_get(&self.map, key)
    }

    /// Folds one record in: a key seen before has its accumulator updated in
    /// place, a new key gets an accumulator seeded with the reading.
    pub fn record(&mut self, key: &[u8], value: i32)
        requires
            old(self).wf(),
            old(self)@.contains_key(key@) ==> old(self)@[key@].count < u32::MAX,
        ensures
            final(self)@ == fold_in(old(self)@, key@, value as int),
            final(self).wf(),
    {
        proof {
            self.lemma_view();
        }
        match fx_get_mut(&mut self.map, key) {
            Some(stats) => {
                assert(old(self)@.contains_key(key@));
                stats.update(value);
            },
            None => {
                fx_insert(&mut self.map, vstd::slice::slice_to_vec(key), Stats::new(value));
            },
        }
        proof {
            self.lemma_view();
            assert(self@ =~= fold_in(old(self)@, key@, value as int));
            crate::aggregate::lemma_fold_in_is_merge(old(self)@, key@, value as int);
            let one = Map::<Seq<u8>, Summary>::empty().insert(key@, Summary::single(value as int));
            assert(Summary::single(value as int).wf()) by (nonlinear_arith);
            assert(tally_wf(one));
            lemma_merge_wf(old(self)@, one);
        }
    }

    /// Folds one accumulator in under `key`: combined with the one that is
    /// there, or stored where there is none.
    pub fn record_stats(&mut self, key: Vec<u8>, stats: Stats)
        requires
            old(self).wf(),
            stats.wf(),
            old(self)@.contains_key(key@) ==> old(self)@[key@].count + stats.count <= u32::MAX,
        ensures
            final(self)@ == merge_tallies(
                old(self)@,
                Map::<Seq<u8>, Summary>::empty().insert(key@, stats@),
            ),
            final(self).wf(),
    {
        proof {
            self.lemma_view();
        }
        match fx_get_mut(&mut self.map, key.as_slice()) {
            Some(existing) => {
                assert(old(self)@.contains_key(key@));
                existing.merge(&stats);
            },
            None => {
                fx_insert(&mut self.map, key, stats);
            },
        }
        proof {
            self.lemma_view();
            let one = Map::<Seq<u8>, Summary>::empty().insert(key@, stats@);
            assert(self@ =~= merge_tallies(old(self)@, one));
            assert(tally_wf(one));
            lemma_merge_wf(old(self)@, one);
        }
    }

    /// The entries of the mapping, each once, in an order that is not fixed.
    pub fn into_entries(self) -> (entries: Vec<(Vec<u8>, Stats)>)
        ensures
            lists_entries(entries@, self.stored()),
    {
        fx_into_entries(self.map)
    }
}

} // verus!
