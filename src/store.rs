use vstd::prelude::*;

use lru::LruCache;
use std::collections::hash_map::RandomState;

use crate::fingerprint::Fingerprint;

verus! {

/// A fingerprinted reference recording, as kept by a store.
pub struct ReferenceSample {
    /// The 128-bit identifier the recording is stored under.
    pub id: u128,
    pub fingerprints: Vec<Fingerprint>,
    /// Number of analysis windows of the recording's spectrogram.
    pub timesteps: usize,
    /// Number of samples per channel; with `sample_rate` this gives the
    /// recording's duration.
    pub length_samples: usize,
    /// Samples per second.
    pub sample_rate: usize,
}

#[verifier::external_type_specification]
#[verifier::external_body]
#[verifier::reject_recursive_types(K)]
#[verifier::reject_recursive_types(V)]
#[verifier::reject_recursive_types(S)]
pub struct ExLruCache<K, V, S>(LruCache<K, V, S>);

/// The entries of a cache, most recently used first.
pub uninterp spec fn lru_entries(c: LruCache<u128, ReferenceSample, RandomState>) -> Seq<(u128, ReferenceSample)>;

/// The number of entries a cache holds at most.
pub uninterp spec fn lru_capacity(c: LruCache<u128, ReferenceSample, RandomState>) -> nat;

/// Whether an entry is under a key other than `k`.
pub open spec fn key_differs(k: u128) -> spec_fn((u128, ReferenceSample)) -> bool {
    |e: (u128, ReferenceSample)| e.0 != k
}

/// The entries a cache holds after `(k, v)` is put into `entries`: the pair
/// goes in front, any entry under `k` leaves, and beyond `cap` the least
/// recently used is dropped.
pub open spec fn entries_after_put(
    entries: Seq<(u128, ReferenceSample)>,
    k: u128,
    v: ReferenceSample,
    cap: nat,
) -> Seq<(u128, ReferenceSample)> {
    let all = seq![(k, v)] + entries.filter(key_differs(k));
    if all.len() > cap {
        all.take(cap as int)
    } else {
        all
    }
}

/// Entry `i` is under key `k`.
pub open spec fn holds_at(entries: Seq<(u128, ReferenceSample)>, k: u128, i: int) -> bool {
    0 <= i < entries.len() && entries[i].0 == k
}

proof fn lemma_filter_keeps_all(entries: Seq<(u128, ReferenceSample)>, k: u128)
    requires
        forall|i: int| 0 <= i < entries.len() ==> entries[i].0 != k,
    ensures
        entries.filter(key_differs(k)) == entries,
    decreases entries.len(),
{
    reveal(Seq::filter);
    if entries.len() > 0 {
        let rest = entries.drop_last();
        lemma_filter_keeps_all(rest, k);
        assert(entries == rest.push(entries.last()));
    }
}

/// After a put into a store of positive capacity, the pair put is the most
/// recent entry and the only one under its key, so a lookup of that key
/// finds exactly the value put.
pub proof fn lemma_put_then_lookup(
    entries: Seq<(u128, ReferenceSample)>,
    k: u128,
    v: ReferenceSample,
    cap: nat,
)
    requires
        cap > 0,
    ensures
        holds_at(entries_after_put(entries, k, v, cap), k, 0),
        entries_after_put(entries, k, v, cap)[0] == (k, v),
        forall|i: int| #[trigger] holds_at(entries_after_put(entries, k, v, cap), k, i) ==> i == 0,
        entries_after_put(entries, k, v, cap).len() <= cap,
{
    broadcast use vstd::seq_lib::group_filter_ensures;

    let f = entries.filter(key_differs(k));
    let g = seq![(k, v)] + f;
    let r = entries_after_put(entries, k, v, cap);
    assert forall|i: int| #[trigger] holds_at(r, k, i) implies i == 0 by {
        if i > 0 {
            assert(r[i] == g[i]);
            assert(g[i] == f[i - 1]);
        }
    }
}

/// Putting a new key into a full store drops exactly its least recently
/// used entry; into a store that is not full, it drops nothing.
pub proof fn lemma_put_new_key(
    entries: Seq<(u128, ReferenceSample)>,
    k: u128,
    v: ReferenceSample,
    cap: nat,
)
    requires
        cap > 0,
        entries.len() <= cap,
        forall|i: int| 0 <= i < entries.len() ==> entries[i].0 != k,
    ensures
        entries.len() == cap ==> entries_after_put(entries, k, v, cap) == seq![(k, v)]
            + entries.drop_last(),
        entries.len() < cap ==> entries_after_put(entries, k, v, cap) == seq![(k, v)] + entries,
{
    lemma_filter_keeps_all(entries, k);
    let f = entries.filter(key_differs(k));
    assert(f == entries);
    let g = seq![(k, v)] + entries;
    assert(g == seq![(k, v)] + f);
    assert(g.len() == entries.len() + 1);
    if entries.len() == cap {
        assert(g.take(cap as int) =~= seq![(k, v)] + entries.drop_last());
    }
}

/// The entries of a store of capacity `cap` that started empty, after the
/// first `m` of the pairs `(ks[i], vs[i])` were put in order.
pub open spec fn entries_after_puts(ks: Seq<u128>, vs: Seq<ReferenceSample>, cap: nat, m: int) -> Seq<
    (u128, ReferenceSample),
>
    decreases m,
{
    if m <= 0 {
        Seq::empty()
    } else {
        entries_after_put(entries_after_puts(ks, vs, cap, m - 1), ks[m - 1], vs[m - 1], cap)
    }
}

proof fn lemma_puts_fill(ks: Seq<u128>, vs: Seq<ReferenceSample>, cap: nat, m: int)
    requires
        cap > 0,
        0 <= m <= cap,
        m <= ks.len(),
        m <= vs.len(),
        forall|i: int, j: int| 0 <= i < j < ks.len() ==> ks[i] != ks[j],
    ensures
        entries_after_puts(ks, vs, cap, m).len() == m,
        forall|i: int|
            0 <= i < m ==> #[trigger] entries_after_puts(ks, vs, cap, m)[i] == (
                ks[m - 1 - i],
                vs[m - 1 - i],
            ),
    decreases m,
{
    if m > 0 {
        lemma_puts_fill(ks, vs, cap, m - 1);
        let e = entries_after_puts(ks, vs, cap, m - 1);
        assert forall|i: int| 0 <= i < e.len() implies e[i].0 != ks[m - 1] by {
            assert(e[i] == (ks[m - 2 - i], vs[m - 2 - i]));
        }
        lemma_put_new_key(e, ks[m - 1], vs[m - 1], cap);
    }
}

/// Putting `cap + 1` distinct keys in turn into an empty store of capacity
/// `cap` evicts the first key put and keeps all the others.
pub proof fn lemma_overfull_evicts_first(ks: Seq<u128>, vs: Seq<ReferenceSample>, cap: nat)
    requires
        cap > 0,
        ks.len() == cap + 1,
        vs.len() == cap + 1,
        forall|i: int, j: int| 0 <= i < j < ks.len() ==> ks[i] != ks[j],
    ensures
        forall|i: int| !#[trigger] holds_at(entries_after_puts(ks, vs, cap, ks.len() as int), ks[0], i),
        forall|j: int|
            #![trigger vs[j]]
            1 <= j <= cap ==> holds_at(
                entries_after_puts(ks, vs, cap, ks.len() as int),
                ks[j],
                cap - j,
            ) && entries_after_puts(ks, vs, cap, ks.len() as int)[cap - j].1 == vs[j],
{
    lemma_puts_fill(ks, vs, cap, cap as int);
    let e = entries_after_puts(ks, vs, cap, cap as int);
    assert forall|i: int| 0 <= i < e.len() implies e[i].0 != ks[cap as int] by {
        assert(e[i] == (ks[cap - 1 - i], vs[cap - 1 - i]));
    }
    lemma_put_new_key(e, ks[cap as int], vs[cap as int], cap);
    let r = entries_after_puts(ks, vs, cap, ks.len() as int);
    assert(r == seq![(ks[cap as int], vs[cap as int])] + e.drop_last());
    assert forall|i: int| holds_at(r, ks[0], i) implies false by {
        if i > 0 {
            assert(r[i] == e[i - 1]);
            assert(e[i - 1] == (ks[cap - i], vs[cap - i]));
        }
    }
    assert forall|j: int| #![trigger vs[j]] 1 <= j <= cap implies holds_at(r, ks[j], cap - j)
        && r[cap - j].1 == vs[j] by {
        if j == cap {
            assert(holds_at(r, ks[j], 0) && r[0].1 == vs[j]);
        } else {
            let i = cap - j;
            assert(r[i] == e[i - 1]);
            assert(e[i - 1] == (ks[cap - i], vs[cap - i]));
            assert(holds_at(r, ks[j], i) && r[i].1 == vs[j]);
        }
    }
}

/// An entry just looked up is the most recent one, so putting a new key into
/// the full store evicts another entry, the least recently used, and keeps
/// the one looked up.
pub proof fn lemma_lookup_survives_eviction(
    entries: Seq<(u128, ReferenceSample)>,
    i: int,
    k: u128,
    v: ReferenceSample,
    cap: nat,
)
    requires
        cap >= 2,
        entries.len() == cap,
        0 <= i < entries.len(),
        forall|j: int| 0 <= j < entries.len() ==> entries[j].0 != k,
    ensures
        ({
            let looked = seq![entries[i]] + entries.remove(i);
            let after = entries_after_put(looked, k, v, cap);
            &&& after == seq![(k, v)] + looked.drop_last()
            &&& after[1] == entries[i]
        }),
{
    let looked = seq![entries[i]] + entries.remove(i);
    assert forall|j: int| 0 <= j < looked.len() implies looked[j].0 != k by {
        if j > 0 {
            assert(looked[j] == entries.remove(i)[j - 1]);
            if j - 1 < i {
                assert(entries.remove(i)[j - 1] == entries[j - 1]);
            } else {
                assert(entries.remove(i)[j - 1] == entries[j]);
            }
        }
    }
    lemma_put_new_key(looked, k, v, cap);
}

/// Relies on lru::LruCache::with_hasher: an empty cache holding at most
/// `cap` entries.
#[verifier::external_body]
fn lru_new(cap: usize) -> (r: LruCache<u128, ReferenceSample, RandomState>)
    requires
        cap > 0,
    ensures
        lru_entries(r) == Seq::<(u128, ReferenceSample)>::empty(),
        lru_capacity(r) == cap,
{
    LruCache::with_hasher(std::num::NonZeroUsize::new(cap).unwrap(), RandomState::new())
}

/// Relies on lru::LruCache::put: the pair becomes the most recent entry,
/// replacing the value under the same key, or else evicting the least
/// recently used entry when the cache is full.
#[verifier::external_body]
fn lru_put(c: &mut LruCache<u128, ReferenceSample, RandomState>, k: u128, v: ReferenceSample)
    ensures
        lru_capacity(*final(c)) == lru_capacity(*old(c)),
        lru_entries(*final(c)) == entries_after_put(
            lru_entries(*old(c)),
            k,
            v,
            lru_capacity(*old(c)),
        ),
{
    c.put(k, v);
}

/// Relies on lru::LruCache::promote: an entry under the key becomes the most
/// recent one; no change when the key is absent.
#[verifier::external_body]
fn lru_promote(c: &mut LruCache<u128, ReferenceSample, RandomState>, k: u128)
    ensures
        lru_capacity(*final(c)) == lru_capacity(*old(c)),
        !(exists|i: int| holds_at(lru_entries(*old(c)), k, i)) ==> lru_entries(*final(c))
            == lru_entries(*old(c)),
        (exists|i: int| holds_at(lru_entries(*old(c)), k, i)) ==> exists|i: int|
            holds_at(lru_entries(*old(c)), k, i) && lru_entries(*final(c)) == seq![
                lru_entries(*old(c))[i],
            ] + lru_entries(*old(c)).remove(i),
{
    c.promote(&k);
}

/// Relies on lru::LruCache::peek: the value under the key, with no change
/// to the order of use; `None` when the key is absent.
#[verifier::external_body]
fn lru_peek(c: &LruCache<u128, ReferenceSample, RandomState>, k: u128) -> (r: Option<
    &ReferenceSample,
>)
    ensures
        r is None <==> !exists|i: int| holds_at(lru_entries(*c), k, i),
        r matches Some(v) ==> exists|i: int| holds_at(lru_entries(*c), k, i) && lru_entries(*c)[i].1 == *v,
{
    c.peek(&k)
}

/// A place that reference recordings are put into and looked up from.
pub trait Store {
    /// The entries the store holds.
    spec fn stored(&self) -> Seq<(u128, ReferenceSample)>;

    /// Stores `reference_sample` under `id`; afterwards every entry the
    /// store holds is under `id` or was held before.
    fn set_reference_sample(&mut self, id: u128, reference_sample: ReferenceSample)
        ensures
            forall|i: int|
                0 <= i < final(self).stored().len() ==> (#[trigger] final(self).stored()[i]).0 == id
                    || old(self).stored().contains(final(self).stored()[i]),
    ;

    /// The recording stored under `id`, if the store holds one.
    fn get_reference_sample(&mut self, id: &u128) -> (r: Option<&ReferenceSample>)
        ensures
            r matches Some(v) ==> exists|i: int|
                holds_at(old(self).stored(), *id, i) && old(self).stored()[i].1 == *v,
    ;
}

/// A durable backing that is not wired to a database: it keeps nothing and
/// finds nothing.
pub struct PostgresStore {}

impl Store for PostgresStore {
    open spec fn stored(&self) -> Seq<(u128, ReferenceSample)> {
        Seq::empty()
    }

    fn set_reference_sample(&mut self, id: u128, reference_sample: ReferenceSample) {
    }

    fn get_reference_sample(&mut self, id: &u128) -> (r: Option<&ReferenceSample>) {
        None
    }
}

/// An in-memory store that keeps the most recently used recordings, up to
/// a fixed number.
pub struct MemoryStore {
    cache: LruCache<u128, ReferenceSample, RandomState>,
}

impl MemoryStore {
    /// The entries held, most recently used first.
    pub closed spec fn entries(&self) -> Seq<(u128, ReferenceSample)> {
        lru_entries(self.cache)
    }

    /// The number of entries held at most.
    pub closed spec fn capacity(&self) -> nat {
        lru_capacity(self.cache)
    }

    /// An empty store that holds at most `cap` recordings.
    pub fn new(cap: usize) -> (r: MemoryStore)
        requires
            cap > 0,
        ensures
            r.entries() == Seq::<(u128, ReferenceSample)>::empty(),
            r.capacity() == cap,
    {
        MemoryStore { cache: lru_new(cap) }
    }

    /// Puts a recording under `id` as the most recently used entry; an entry
    /// under the same id is replaced, and a full store drops its least
    /// recently used entry.
    pub fn put(&mut self, id: u128, reference_sample: ReferenceSample)
        ensures
            final(self).capacity() == old(self).capacity(),
            final(self).entries() == entries_after_put(
                old(self).entries(),
                id,
                reference_sample,
                old(self).capacity(),
            ),
    {
        lru_put(&mut self.cache, id, reference_sample);
    }

    /// The recording under `id`, which becomes the most recently used; `None`
    /// and no change when the store holds none.
    pub fn get(&mut self, id: u128) -> (r: Option<&ReferenceSample>)
        ensures
            final(self).capacity() == old(self).capacity(),
            r is None <==> !exists|i: int| holds_at(old(self).entries(), id, i),
            r is None ==> final(self).entries() == old(self).entries(),
            r matches Some(v) ==> exists|i: int|
                holds_at(old(self).entries(), id, i) && old(self).entries()[i].1 == *v,
            r is Some ==> exists|i: int|
                holds_at(old(self).entries(), id, i) && final(self).entries() == seq![
                    old(self).entries()[i],
                ] + old(self).entries().remove(i),
    {
        lru_promote(&mut self.cache, id);
        let r = lru_peek(&self.cache, id);
        proof {
            if let Some(v) = r {
                let i = choose|i: int| holds_at(self.entries(), id, i) && self.entries()[i].1 == *v;
                let j = choose|j: int|
                    holds_at(old(self).entries(), id, j) && self.entries() == seq![
                        old(self).entries()[j],
                    ] + old(self).entries().remove(j);
                if i == 0 {
                    assert(holds_at(old(self).entries(), id, j) && old(self).entries()[j].1 == *v);
                } else {
                    let k = if i - 1 < j { i - 1 } else { i };
                    assert(self.entries()[i] == old(self).entries().remove(j)[i - 1]);
                    assert(holds_at(old(self).entries(), id, k) && old(self).entries()[k].1 == *v);
                }
            } else {
                assert(!exists|i: int| holds_at(self.entries(), id, i));
                if exists|j: int| holds_at(old(self).entries(), id, j) {
                    let j = choose|j: int|
                        holds_at(old(self).entries(), id, j) && self.entries() == seq![
                            old(self).entries()[j],
                        ] + old(self).entries().remove(j);
                    assert(holds_at(self.entries(), id, 0));
                }
            }
        }
        r
    }
}

impl Store for MemoryStore {
    open spec fn stored(&self) -> Seq<(u128, ReferenceSample)> {
        self.entries()
    }

    fn set_reference_sample(&mut self, id: u128, reference_sample: ReferenceSample)
        ensures
            final(self).capacity() == old(self).capacity(),
            final(self).entries() == entries_after_put(
                old(self).entries(),
                id,
                reference_sample,
                old(self).capacity(),
            ),
    {
        let ghost before = self.entries();
        let ghost kept = reference_sample;
        self.put(id, reference_sample);
        proof {
            broadcast use vstd::seq_lib::group_filter_ensures;

            let after = self.entries();
            let f = before.filter(key_differs(id));
            let g = seq![(id, kept)] + f;
            assert(g.len() > old(self).capacity() ==> after == g.take(old(self).capacity() as int));
            assert forall|i: int| 0 <= i < after.len() implies (#[trigger] after[i]).0 == id
                || before.contains(after[i]) by {
                assert(after[i] == g[i]);
                if i > 0 {
                    assert(g[i] == f[i - 1]);
                    assert(f.contains(f[i - 1]));
                    before.lemma_filter_contains_rev(key_differs(id), f[i - 1]);
                }
            }
        }
    }

    fn get_reference_sample(&mut self, id: &u128) -> (r: Option<&ReferenceSample>)
        ensures
            final(self).capacity() == old(self).capacity(),
            r is None <==> !exists|i: int| holds_at(old(self).entries(), *id, i),
            r is None ==> final(self).entries() == old(self).entries(),
            r matches Some(v) ==> exists|i: int|
                holds_at(old(self).entries(), *id, i) && old(self).entries()[i].1 == *v,
            r is Some ==> exists|i: int|
                holds_at(old(self).entries(), *id, i) && final(self).entries() == seq![
                    old(self).entries()[i],
                ] + old(self).entries().remove(i),
    {
        let ghost before = self.stored();
        let r = MemoryStore::get(self, *id);
        proof {
            if let Some(v) = r {
                let i = choose|i: int| holds_at(before, *id, i) && before[i].1 == *v;
                assert(holds_at(old(self).stored(), *id, i));
            }
        }
        r
    }
}

} // verus!
