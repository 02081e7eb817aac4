use vstd::prelude::*;

use std::collections::HashMap;

use crate::error::ServiceError;
use crate::fingerprint::Fingerprint;

verus! {

broadcast use vstd::std_specs::hash::group_hash_axioms;

/// The dominant offset between a reference and a sample.
#[derive(Clone, Copy, Debug, PartialEq, Eq, Structural)]
pub struct FingerprintDifference {
    /// Reference time minus sample time, in windows, that most matches agree on.
    pub most_common_offset: isize,
    /// How many matches voted for that offset.
    pub most_common_offset_occurences: usize,
    /// Sample-side time of the first match that voted for it.
    pub first_sample_offset_match: usize,
}

/// One vote: the offset and the sample time it was measured against.
struct Vote {
    offset: isize,
    sample_time: usize,
}

/// The sample index after the first `n` sample fingerprints: each hash maps
/// to the time of the last fingerprint seen with it.
pub open spec fn sample_index_upto(sample: Seq<Fingerprint>, n: int) -> Map<u128, usize>
    decreases n,
{
    if n <= 0 {
        Map::empty()
    } else {
        sample_index_upto(sample, n - 1).insert(sample[n - 1].hash, sample[n - 1].time)
    }
}

pub open spec fn sample_index(sample: Seq<Fingerprint>) -> Map<u128, usize> {
    sample_index_upto(sample, sample.len() as int)
}

/// The votes, as `(offset, sample time)`, of the first `n` reference
/// fingerprints whose hash the sample index holds, in reference order.
pub open spec fn votes_upto(source: Seq<Fingerprint>, index: Map<u128, usize>, n: int) -> Seq<
    (int, usize),
>
    decreases n,
{
    if n <= 0 {
        seq![]
    } else if index.contains_key(source[n - 1].hash) {
        votes_upto(source, index, n - 1).push(
            (source[n - 1].time - index[source[n - 1].hash], index[source[n - 1].hash]),
        )
    } else {
        votes_upto(source, index, n - 1)
    }
}

/// All votes of a reference against a sample.
pub open spec fn votes(source: Seq<Fingerprint>, sample: Seq<Fingerprint>) -> Seq<(int, usize)> {
    votes_upto(source, sample_index(sample), source.len() as int)
}

/// How many of the first `n` votes are for offset `d`.
pub open spec fn count_upto(v: Seq<(int, usize)>, d: int, n: int) -> nat
    decreases n,
{
    if n <= 0 {
        0
    } else {
        count_upto(v, d, n - 1) + if v[n - 1].0 == d {
            1nat
        } else {
            0nat
        }
    }
}

/// How many votes are for offset `d`.
pub open spec fn count(v: Seq<(int, usize)>, d: int) -> nat {
    count_upto(v, d, v.len() as int)
}

/// Vote `k` is the first one whose offset has the highest count.
pub open spec fn first_best(v: Seq<(int, usize)>, k: int) -> bool {
    &&& 0 <= k < v.len()
    &&& forall|j: int| 0 <= j < v.len() ==> count(v, #[trigger] v[j].0) <= count(v, v[k].0)
    &&& forall|j: int| 0 <= j < k ==> count(v, #[trigger] v[j].0) < count(v, v[k].0)
}

/// The report that vote `k` stands for.
pub open spec fn reports(v: Seq<(int, usize)>, k: int, r: FingerprintDifference) -> bool {
    &&& r.most_common_offset == v[k].0
    &&& r.most_common_offset_occurences == count(v, v[k].0)
    &&& r.first_sample_offset_match == v[k].1
}

/// Fingerprint times that a signed offset can hold.
pub open spec fn times_fit(f: Seq<Fingerprint>) -> bool {
    forall|i: int| 0 <= i < f.len() ==> #[trigger] f[i].time <= isize::MAX
}

proof fn lemma_count_bound(v: Seq<(int, usize)>, d: int, n: int)
    requires
        0 <= n <= v.len(),
    ensures
        count_upto(v, d, n) <= n,
    decreases n,
{
    if n > 0 {
        lemma_count_bound(v, d, n - 1);
    }
}

/// Checks that every time fits a signed offset.
fn all_times_fit(f: &[Fingerprint]) -> (r: bool)
    ensures
        r == times_fit(f@),
{
    let mut i: usize = 0;
    while i < f.len()
        invariant
            i <= f@.len(),
            forall|k: int| 0 <= k < i ==> #[trigger] f@[k].time <= isize::MAX,
        decreases f.len() - i,
    {
        if f[i].time > isize::MAX as usize {
            return false;
        }
        i = i + 1;
    }
    true
}

/// Aligns like `align_fingerprints` on any input: `Internal` when a time
/// does not fit a signed offset, `NoMatches` when no hash is shared.
pub fn align_checked(source: &[Fingerprint], sample: &[Fingerprint]) -> (r: Result<
    FingerprintDifference,
    ServiceError,
>)
    ensures
        !(times_fit(source@) && times_fit(sample@)) <==> r == Err::<
            FingerprintDifference,
            ServiceError,
        >(ServiceError::Internal),
        times_fit(source@) && times_fit(sample@) ==> {
            &&& (r is Err <==> votes(source@, sample@).len() == 0)
            &&& (r is Err ==> r == Err::<FingerprintDifference, ServiceError>(ServiceError::NoMatches))
            &&& (r matches Ok(d) ==> exists|k: int|
                first_best(votes(source@, sample@), k) && reports(votes(source@, sample@), k, d))
        },
{
    if !all_times_fit(source) || !all_times_fit(sample) {
        return Err(ServiceError::Internal);
    }
    match align_fingerprints(source, sample) {
        Some(d) => Ok(d),
        None => Err(ServiceError::NoMatches),
    }
}

proof fn lemma_count_positive(v: Seq<(int, usize)>, j: int, n: int)
    requires
        0 <= j < n <= v.len(),
    ensures
        count_upto(v, v[j].0, n) >= 1,
    decreases n,
{
    if j < n - 1 {
        lemma_count_positive(v, j, n - 1);
    }
}

/// Aligns a sample against a reference: every reference fingerprint whose
/// hash the sample holds votes for the offset between its time and the
/// sample's time for that hash (the last sample fingerprint with a hash
/// wins); the offset with the most votes is returned, ties going to the one
/// voted for first. `None` when no hash is shared.
pub fn align_fingerprints(source: &[Fingerprint], sample: &[Fingerprint]) -> (r: Option<
    FingerprintDifference,
>)
    requires
        times_fit(source@),
        times_fit(sample@),
    ensures
        r is None <==> votes(source@, sample@).len() == 0,
        r matches Some(d) ==> exists|k: int|
            first_best(votes(source@, sample@), k) && reports(votes(source@, sample@), k, d),
{
    let ghost src = source@;
    let ghost smp = sample@;
    let mut index: HashMap<u128, usize> = HashMap::new();
    let mut i: usize = 0;
    while i < sample.len()
        invariant
            i <= sample@.len(),
            smp == sample@,
            times_fit(smp),
            index@ == sample_index_upto(smp, i as int),
            forall|h: u128| #[trigger] index@.contains_key(h) ==> index@[h] <= isize::MAX,
        decreases sample.len() - i,
    {
        index.insert(sample[i].hash, sample[i].time);
        i = i + 1;
    }
    let ghost idx = index@;
    let mut found: Vec<Vote> = Vec::new();
    let ghost mut gv: Seq<(int, usize)> = seq![];
    let mut i: usize = 0;
    while i < source.len()
        invariant
            i <= source@.len(),
            src == source@,
            times_fit(src),
            idx == index@,
            idx == sample_index(smp),
            forall|h: u128| #[trigger] idx.contains_key(h) ==> idx[h] <= isize::MAX,
            gv == votes_upto(src, idx, i as int),
            found@.len() == gv.len(),
            forall|k: int|
                0 <= k < gv.len() ==> (#[trigger] found@[k]).offset == gv[k].0
                    && found@[k].sample_time == gv[k].1,
        decreases source.len() - i,
    {
        let f = source[i];
        match index.get(&f.hash) {
            Some(t) => {
                let st: usize = *t;
                let offset: isize = f.time as isize - st as isize;
                found.push(Vote { offset, sample_time: st });
                proof {
                    gv = gv.push((offset as int, st));
                }
            },
            None => {},
        }
        i = i + 1;
    }
    if found.len() == 0 {
        return None;
    }
    let mut counts: HashMap<isize, usize> = HashMap::new();
    let mut i: usize = 0;
    while i < found.len()
        invariant
            i <= found@.len(),
            found@.len() == gv.len(),
            forall|k: int|
                0 <= k < gv.len() ==> (#[trigger] found@[k]).offset == gv[k].0
                    && found@[k].sample_time == gv[k].1,
            forall|d: isize| #[trigger]
                counts@.contains_key(d) ==> counts@[d] == count_upto(gv, d as int, i as int),
            forall|d: isize| #[trigger]
                counts@.contains_key(d) || count_upto(gv, d as int, i as int) == 0,
        decreases found.len() - i,
    {
        let d = found[i].offset;
        let c: usize = match counts.get(&d) {
            Some(c) => *c,
            None => 0,
        };
        proof {
            lemma_count_bound(gv, d as int, i as int);
        }
        counts.insert(d, c + 1);
        i = i + 1;
    }
    let mut best: usize = 0;
    let mut best_k: usize = 0;
    let mut i: usize = 0;
    while i < found.len()
        invariant
            i <= found@.len(),
            found@.len() == gv.len(),
            gv.len() > 0,
            forall|k: int|
                0 <= k < gv.len() ==> (#[trigger] found@[k]).offset == gv[k].0
                    && found@[k].sample_time == gv[k].1,
            forall|d: isize| #[trigger]
                counts@.contains_key(d) ==> counts@[d] == count(gv, d as int),
            forall|d: isize| #[trigger] counts@.contains_key(d) || count(gv, d as int) == 0,
            best_k < gv.len(),
            best_k <= i,
            i == 0 ==> best == 0,
            i > 0 ==> best_k < i && best == count(gv, gv[best_k as int].0),
            forall|j: int| 0 <= j < i ==> count(gv, #[trigger] gv[j].0) <= best,
            forall|j: int| 0 <= j < best_k ==> count(gv, #[trigger] gv[j].0) < best,
        decreases found.len() - i,
    {
        let d = found[i].offset;
        let c: usize = match counts.get(&d) {
            Some(c) => *c,
            None => 0,
        };
        proof {
            lemma_count_positive(gv, i as int, gv.len() as int);
            assert(found@[i as int].offset == gv[i as int].0);
        }
        if c > best {
            best = c;
            best_k = i;
        }
        i = i + 1;
    }
    let winner = &found[best_k];
    let r = FingerprintDifference {
        most_common_offset: winner.offset,
        most_common_offset_occurences: best,
        first_sample_offset_match: winner.sample_time,
    };
    assert(gv == votes(source@, sample@));
    assert(first_best(gv, best_k as int));
    assert(reports(gv, best_k as int, r));
    Some(r)
}

/// No two fingerprints share a hash.
pub open spec fn unique_hashes(f: Seq<Fingerprint>) -> bool {
    forall|i: int, j: int| 0 <= i < j < f.len() ==> f[i].hash != f[j].hash
}

proof fn lemma_index_of_unique(s: Seq<Fingerprint>, k: int, n: int)
    requires
        unique_hashes(s),
        0 <= k < n <= s.len(),
    ensures
        sample_index_upto(s, n).contains_key(s[k].hash),
        sample_index_upto(s, n)[s[k].hash] == s[k].time,
    decreases n,
{
    if k < n - 1 {
        lemma_index_of_unique(s, k, n - 1);
    }
}

proof fn lemma_self_votes(s: Seq<Fingerprint>, n: int)
    requires
        unique_hashes(s),
        0 <= n <= s.len(),
    ensures
        votes_upto(s, sample_index(s), n).len() == n,
        forall|k: int|
            0 <= k < n ==> #[trigger] votes_upto(s, sample_index(s), n)[k] == (0int, s[k].time),
        count_upto(votes_upto(s, sample_index(s), n), 0, n) == n,
    decreases n,
{
    if n > 0 {
        lemma_self_votes(s, n - 1);
        lemma_index_of_unique(s, n - 1, s.len() as int);
        let v = votes_upto(s, sample_index(s), n);
        let w = votes_upto(s, sample_index(s), n - 1);
        assert(v == w.push((0int, s[n - 1].time)));
        lemma_count_prefix(v, w, 0, n - 1);
    }
}

proof fn lemma_count_prefix(v: Seq<(int, usize)>, w: Seq<(int, usize)>, d: int, n: int)
    requires
        0 <= n <= w.len(),
        w.len() <= v.len(),
        forall|k: int| 0 <= k < w.len() ==> v[k] == w[k],
    ensures
        count_upto(v, d, n) == count_upto(w, d, n),
    decreases n,
{
    if n > 0 {
        lemma_count_prefix(v, w, d, n - 1);
    }
}

/// Aligning a set of fingerprints with distinct hashes against itself gives
/// one vote per fingerprint, all for offset zero: the winning offset is zero
/// and its count is the number of distinct hashes.
pub proof fn lemma_self_alignment(s: Seq<Fingerprint>)
    requires
        unique_hashes(s),
    ensures
        votes(s, s).len() == s.len(),
        forall|k: int| first_best(votes(s, s), k) ==> votes(s, s)[k].0 == 0,
        forall|k: int| first_best(votes(s, s), k) ==> count(votes(s, s), votes(s, s)[k].0) == s.len(),
{
    lemma_self_votes(s, s.len() as int);
}

/// The hashes of the first `n` reference fingerprints that vote for offset `d`.
pub open spec fn agreeing(source: Seq<Fingerprint>, index: Map<u128, usize>, d: int, n: int) -> Set<
    u128,
>
    decreases n,
{
    if n <= 0 {
        Set::empty()
    } else if index.contains_key(source[n - 1].hash) && source[n - 1].time - index[source[n - 1].hash]
        == d {
        agreeing(source, index, d, n - 1).insert(source[n - 1].hash)
    } else {
        agreeing(source, index, d, n - 1)
    }
}

proof fn lemma_agreeing_members(source: Seq<Fingerprint>, index: Map<u128, usize>, d: int, n: int)
    requires
        0 <= n <= source.len(),
    ensures
        agreeing(source, index, d, n).finite(),
        forall|h: u128|
            #[trigger] agreeing(source, index, d, n).contains(h) <==> exists|i: int|
                0 <= i < n && source[i].hash == h && index.contains_key(h) && source[i].time - index[h]
                    == d,
    decreases n,
{
    if n > 0 {
        lemma_agreeing_members(source, index, d, n - 1);
        assert forall|h: u128| #[trigger] agreeing(source, index, d, n).contains(h) implies exists|i: int|
            0 <= i < n && source[i].hash == h && index.contains_key(h) && source[i].time - index[h]
                == d by {
            if !agreeing(source, index, d, n - 1).contains(h) {
                assert(source[n - 1].hash == h);
            }
        }
        assert forall|h: u128|
            (exists|i: int|
                0 <= i < n && source[i].hash == h && index.contains_key(h) && source[i].time
                    - index[h] == d) implies #[trigger] agreeing(source, index, d, n).contains(h) by {
            let i = choose|i: int|
                0 <= i < n && source[i].hash == h && index.contains_key(h) && source[i].time
                    - index[h] == d;
            if i < n - 1 {
                assert(agreeing(source, index, d, n - 1).contains(h));
            }
        }
    }
}

proof fn lemma_count_is_agreeing(source: Seq<Fingerprint>, index: Map<u128, usize>, d: int, n: int)
    requires
        unique_hashes(source),
        0 <= n <= source.len(),
    ensures
        count(votes_upto(source, index, n), d) == agreeing(source, index, d, n).len(),
    decreases n,
{
    if n > 0 {
        lemma_count_is_agreeing(source, index, d, n - 1);
        lemma_agreeing_members(source, index, d, n - 1);
        let v = votes_upto(source, index, n);
        let w = votes_upto(source, index, n - 1);
        let h = source[n - 1].hash;
        if index.contains_key(h) {
            lemma_count_prefix(v, w, d, w.len() as int);
            assert(!agreeing(source, index, d, n - 1).contains(h));
        }
    }
}

proof fn lemma_index_has(s: Seq<Fingerprint>, h: u128, n: int)
    requires
        0 <= n <= s.len(),
        sample_index_upto(s, n).contains_key(h),
    ensures
        exists|i: int| 0 <= i < n && s[i].hash == h,
    decreases n,
{
    if s[n - 1].hash != h {
        lemma_index_has(s, h, n - 1);
    }
}

proof fn lemma_count_has(v: Seq<(int, usize)>, d: int, n: int)
    requires
        0 <= n <= v.len(),
        count_upto(v, d, n) > 0,
    ensures
        exists|j: int| 0 <= j < n && v[j].0 == d,
    decreases n,
{
    if v[n - 1].0 != d {
        lemma_count_has(v, d, n - 1);
    }
}

/// With distinct hashes on both sides, swapping the roles of reference and
/// sample turns every count for offset `d` into the same count for `-d`.
pub proof fn lemma_swap_counts(a: Seq<Fingerprint>, b: Seq<Fingerprint>, d: int)
    requires
        unique_hashes(a),
        unique_hashes(b),
    ensures
        count(votes(a, b), d) == count(votes(b, a), -d),
{
    let ia = sample_index(a);
    let ib = sample_index(b);
    lemma_count_is_agreeing(a, ib, d, a.len() as int);
    lemma_count_is_agreeing(b, ia, -d, b.len() as int);
    lemma_agreeing_members(a, ib, d, a.len() as int);
    lemma_agreeing_members(b, ia, -d, b.len() as int);
    let x = agreeing(a, ib, d, a.len() as int);
    let y = agreeing(b, ia, -d, b.len() as int);
    assert forall|h: u128| x.contains(h) implies y.contains(h) by {
        let i = choose|i: int|
            0 <= i < a.len() && a[i].hash == h && ib.contains_key(h) && a[i].time - ib[h] == d;
        lemma_index_has(b, h, b.len() as int);
        let j = choose|j: int| 0 <= j < b.len() && b[j].hash == h;
        lemma_index_of_unique(b, j, b.len() as int);
        lemma_index_of_unique(a, i, a.len() as int);
    }
    assert forall|h: u128| y.contains(h) implies x.contains(h) by {
        let j = choose|j: int|
            0 <= j < b.len() && b[j].hash == h && ia.contains_key(h) && b[j].time - ia[h] == -d;
        lemma_index_has(a, h, a.len() as int);
        let i = choose|i: int| 0 <= i < a.len() && a[i].hash == h;
        lemma_index_of_unique(a, i, a.len() as int);
        lemma_index_of_unique(b, j, b.len() as int);
    }
    assert(x =~= y);
}

/// With distinct hashes on both sides and a single offset holding the
/// highest count, swapping reference and sample negates the winning offset
/// and keeps its count.
pub proof fn lemma_swap_negates_offset(a: Seq<Fingerprint>, b: Seq<Fingerprint>, k: int, k2: int)
    requires
        unique_hashes(a),
        unique_hashes(b),
        first_best(votes(a, b), k),
        first_best(votes(b, a), k2),
        forall|j: int|
            0 <= j < votes(a, b).len() && count(votes(a, b), #[trigger] votes(a, b)[j].0) == count(
                votes(a, b),
                votes(a, b)[k].0,
            ) ==> votes(a, b)[j].0 == votes(a, b)[k].0,
    ensures
        votes(b, a)[k2].0 == -votes(a, b)[k].0,
        count(votes(b, a), votes(b, a)[k2].0) == count(votes(a, b), votes(a, b)[k].0),
{
    let v = votes(a, b);
    let u = votes(b, a);
    let d = v[k].0;
    let e = u[k2].0;
    lemma_swap_counts(a, b, d);
    lemma_swap_counts(a, b, -e);
    lemma_count_positive(v, k, v.len() as int);
    lemma_count_positive(u, k2, u.len() as int);
    lemma_count_has(u, -d, u.len() as int);
    let j = choose|j: int| 0 <= j < u.len() && u[j].0 == -d;
    assert(count(u, u[j].0) <= count(u, e));
    assert(-(-e) == e);
    lemma_count_has(v, -e, v.len() as int);
    let i = choose|i: int| 0 <= i < v.len() && v[i].0 == -e;
    assert(count(v, v[i].0) <= count(v, d));
    assert(count(v, v[i].0) == count(v, d));
}

} // verus!
