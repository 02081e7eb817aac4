use vstd::prelude::*;

use crate::consts::{FAN_VALUE, MAX_DELTA_TIME, MIN_DELTA_TIME};

verus! {

/// One surviving cell of the spectrogram: `time` is the window index and
/// `freq` the frequency bin.
#[derive(Clone, Copy, Debug, PartialEq, Eq, Structural)]
pub struct Peak {
    pub time: usize,
    pub freq: usize,
}

/// A hashed peak pair, anchored at the time of its first peak.
#[derive(Clone, Copy, Debug, PartialEq, Eq, Structural)]
pub struct Fingerprint {
    pub hash: u128,
    pub time: usize,
}

/// The MD5 digest of a byte string, read as a big-endian 128-bit integer.
pub uninterp spec fn md5_of(data: Seq<u8>) -> u128;

/// Relies on md5::compute: the 16-byte digest of the bytes given, which is
/// taken big-endian as one integer (its lower-case hex rendering is then the
/// usual 32-digit digest string).
#[verifier::external_body]
fn md5_digest(data: &Vec<u8>) -> (r: u128)
    ensures
        r == md5_of(data@),
{
    u128::from_be_bytes(md5::compute(data).0)
}

/// The lower-case ASCII hex digit of a nibble.
pub open spec fn hex_digit(n: u8) -> u8 {
    if n < 10 {
        (48 + n) as u8
    } else {
        (87 + n) as u8
    }
}

/// The 32 lower-case hex digits of a 128-bit hash, most significant first.
pub open spec fn hex_of(h: u128) -> Seq<u8> {
    Seq::new(32, |i: int| hex_digit(((h >> ((124 - 4 * i) as u128)) & 15u128) as u8))
}

impl Fingerprint {
    /// The hash as the usual 32-digit lower-case hex digest text.
    pub fn hash_hex(&self) -> (r: Vec<u8>)
        ensures
            r@ == hex_of(self.hash),
    {
        let mut out: Vec<u8> = Vec::new();
        let mut i: usize = 0;
        while i < 32
            invariant
                i <= 32,
                out@.len() == i,
                forall|k: int| 0 <= k < i ==> out@[k] == #[trigger] hex_of(self.hash)[k],
            decreases 32 - i,
        {
            let shift: u128 = (124 - 4 * i) as u128;
            let h = self.hash;
            let masked: u128 = (h >> shift) & 15u128;
            assert(masked < 16) by (bit_vector)
                requires
                    masked == (h >> shift) & 15u128,
            ;
            let nib: u8 = masked as u8;
            let digit: u8 = if nib < 10 {
                48 + nib
            } else {
                87 + nib
            };
            out.push(digit);
            i = i + 1;
        }
        proof {
            assert(out@ =~= hex_of(self.hash));
        }
        out
    }
}

/// Base-10 ASCII digits of `n`, without leading zeros.
pub open spec fn decimal(n: nat) -> Seq<u8>
    decreases n,
{
    if n < 10 {
        seq![(48 + n) as u8]
    } else {
        decimal(n / 10).push((48 + n % 10) as u8)
    }
}

/// The text `"{f1}|{f2}|{d}"` whose digest names a peak pair.
pub open spec fn pair_key(f1: nat, f2: nat, d: nat) -> Seq<u8> {
    decimal(f1) + seq![124u8] + decimal(f2) + seq![124u8] + decimal(d)
}

/// The hash of a pair of frequencies `d` windows apart.
pub open spec fn pair_hash(f1: nat, f2: nat, d: nat) -> u128 {
    md5_of(pair_key(f1, f2, d))
}

/// Appends the decimal digits of `n`.
fn push_decimal(out: &mut Vec<u8>, n: usize)
    ensures
        final(out)@ == old(out)@ + decimal(n as nat),
    decreases n,
{
    if n >= 10 {
        push_decimal(out, n / 10);
    }
    let digit: u8 = (n % 10) as u8;
    out.push(48u8 + digit);
    proof {
        assert(final(out)@ =~= old(out)@ + decimal(n as nat));
    }
}

/// Builds the text `"{f1}|{f2}|{d}"`.
pub fn pair_key_bytes(f1: usize, f2: usize, d: usize) -> (r: Vec<u8>)
    ensures
        r@ == pair_key(f1 as nat, f2 as nat, d as nat),
{
    let mut out: Vec<u8> = Vec::new();
    push_decimal(&mut out, f1);
    out.push(124u8);
    push_decimal(&mut out, f2);
    out.push(124u8);
    push_decimal(&mut out, d);
    proof {
        assert(out@ =~= pair_key(f1 as nat, f2 as nat, d as nat));
    }
    out
}

/// Hash of the frequency pair `(f1, f2)` at time distance `d`.
pub fn pair_fingerprint_hash(f1: usize, f2: usize, d: usize) -> (r: u128)
    ensures
        r == pair_hash(f1 as nat, f2 as nat, d as nat),
{
    let key = pair_key_bytes(f1, f2, d);
    md5_digest(&key)
}

/// Peaks in non-decreasing order of time.
pub open spec fn sorted_by_time(peaks: Seq<Peak>) -> bool {
    forall|i: int, j: int| 0 <= i <= j < peaks.len() ==> peaks[i].time <= peaks[j].time
}

/// Whether the anchor at `i` and the peak `j` places after it form a pair.
pub open spec fn in_window(peaks: Seq<Peak>, i: int, j: int) -> bool {
    &&& 0 <= i
    &&& 1 <= j < FAN_VALUE
    &&& i + j < peaks.len()
    &&& peaks[i].time <= peaks[i + j].time
    &&& MIN_DELTA_TIME < peaks[i + j].time - peaks[i].time < MAX_DELTA_TIME
}

/// The fingerprint of the anchor at `i` paired with the peak `j` places later.
pub open spec fn pair_of(peaks: Seq<Peak>, i: int, j: int) -> Fingerprint {
    Fingerprint {
        hash: pair_hash(
            peaks[i].freq as nat,
            peaks[i + j].freq as nat,
            (peaks[i + j].time - peaks[i].time) as nat,
        ),
        time: peaks[i].time,
    }
}

/// What the anchor at `i` emits for its partners `1 .. j`, in order.
pub open spec fn anchor_fingerprints(peaks: Seq<Peak>, i: int, j: int) -> Seq<Fingerprint>
    decreases j,
{
    if j <= 1 {
        seq![]
    } else if in_window(peaks, i, j - 1) {
        anchor_fingerprints(peaks, i, j - 1).push(pair_of(peaks, i, j - 1))
    } else {
        anchor_fingerprints(peaks, i, j - 1)
    }
}

/// What the anchors `0 .. n` emit, anchor by anchor.
pub open spec fn fingerprints_upto(peaks: Seq<Peak>, n: int) -> Seq<Fingerprint>
    decreases n,
{
    if n <= 0 {
        seq![]
    } else {
        fingerprints_upto(peaks, n - 1) + anchor_fingerprints(peaks, n - 1, FAN_VALUE as int)
    }
}

/// All fingerprints of a time-sorted peak list.
pub open spec fn fingerprints_of(peaks: Seq<Peak>) -> Seq<Fingerprint> {
    fingerprints_upto(peaks, peaks.len() as int)
}

/// Pairs each peak with the `FAN_VALUE - 1` peaks after it and hashes every
/// pair whose time distance lies strictly inside the allowed window.
pub fn sorted_peaks_to_fingerprints(sorted_peaks: &[Peak]) -> (r: Vec<Fingerprint>)
    requires
        sorted_by_time(sorted_peaks@),
    ensures
        r@ == fingerprints_of(sorted_peaks@),
{
    let n = sorted_peaks.len();
    let mut out: Vec<Fingerprint> = Vec::new();
    let mut i: usize = 0;
    while i < n
        invariant
            n == sorted_peaks@.len(),
            i <= n,
            sorted_by_time(sorted_peaks@),
            out@ == fingerprints_upto(sorted_peaks@, i as int),
        decreases n - i,
    {
        let ghost before = out@;
        let mut j: usize = 1;
        while j < FAN_VALUE
            invariant
                n == sorted_peaks@.len(),
                i < n,
                1 <= j <= FAN_VALUE,
                sorted_by_time(sorted_peaks@),
                out@ == before + anchor_fingerprints(sorted_peaks@, i as int, j as int),
            decreases FAN_VALUE - j,
        {
            if j < n - i {
                let t1 = sorted_peaks[i].time;
                let t2 = sorted_peaks[i + j].time;
                let d = t2 - t1;
                if MIN_DELTA_TIME < d && d < MAX_DELTA_TIME {
                    let hash = pair_fingerprint_hash(sorted_peaks[i].freq, sorted_peaks[i + j].freq, d);
                    out.push(Fingerprint { hash, time: t1 });
                }
            }
            proof {
                assert(out@ =~= before + anchor_fingerprints(sorted_peaks@, i as int, j + 1));
            }
            j = j + 1;
        }
        i = i + 1;
    }
    out
}

/// Every fingerprint comes from a pair of peaks whose time distance lies
/// strictly between the two bounds.
pub open spec fn from_window_pair(peaks: Seq<Peak>, fp: Fingerprint) -> bool {
    exists|i: int, j: int| #[trigger] in_window(peaks, i, j) && fp == pair_of(peaks, i, j)
}

proof fn lemma_anchor_in_window(peaks: Seq<Peak>, i: int, j: int)
    requires
        0 <= i,
    ensures
        forall|k: int|
            0 <= k < anchor_fingerprints(peaks, i, j).len() ==> from_window_pair(
                peaks,
                #[trigger] anchor_fingerprints(peaks, i, j)[k],
            ),
    decreases j,
{
    if j > 1 {
        lemma_anchor_in_window(peaks, i, j - 1);
        let s = anchor_fingerprints(peaks, i, j);
        assert forall|k: int| 0 <= k < s.len() implies from_window_pair(peaks, #[trigger] s[k]) by {
            if in_window(peaks, i, j - 1) && k == s.len() - 1 {
                assert(in_window(peaks, i, j - 1) && s[k] == pair_of(peaks, i, j - 1));
            } else {
                assert(s[k] == anchor_fingerprints(peaks, i, j - 1)[k]);
            }
        }
    }
}

proof fn lemma_upto_in_window(peaks: Seq<Peak>, n: int)
    ensures
        forall|k: int|
            0 <= k < fingerprints_upto(peaks, n).len() ==> from_window_pair(
                peaks,
                #[trigger] fingerprints_upto(peaks, n)[k],
            ),
    decreases n,
{
    if n > 0 {
        lemma_upto_in_window(peaks, n - 1);
        lemma_anchor_in_window(peaks, n - 1, FAN_VALUE as int);
        let a = fingerprints_upto(peaks, n - 1);
        let b = anchor_fingerprints(peaks, n - 1, FAN_VALUE as int);
        assert forall|k: int| 0 <= k < (a + b).len() implies from_window_pair(
            peaks,
            #[trigger] (a + b)[k],
        ) by {
            if k < a.len() {
                assert((a + b)[k] == a[k]);
            } else {
                assert((a + b)[k] == b[k - a.len()]);
            }
        }
    }
}

/// Each emitted fingerprint pairs an anchor with one of the `FAN_VALUE - 1`
/// peaks after it, at a time distance `d` with
/// `MIN_DELTA_TIME < d < MAX_DELTA_TIME`, and carries the anchor's time.
pub proof fn lemma_fingerprint_window(peaks: Seq<Peak>)
    ensures
        forall|k: int|
            0 <= k < fingerprints_of(peaks).len() ==> from_window_pair(
                peaks,
                #[trigger] fingerprints_of(peaks)[k],
            ),
{
    lemma_upto_in_window(peaks, peaks.len() as int);
}

/// The hash of a pair depends on its frequencies and time distance alone,
/// and the fingerprints of a peak list on the list alone.
pub proof fn lemma_hash_deterministic(
    f1: nat,
    f2: nat,
    d: nat,
    g1: nat,
    g2: nat,
    e: nat,
    p: Seq<Peak>,
    q: Seq<Peak>,
)
    requires
        f1 == g1 && f2 == g2 && d == e,
        p == q,
    ensures
        pair_hash(f1, f2, d) == pair_hash(g1, g2, e),
        fingerprints_of(p) == fingerprints_of(q),
{
}

proof fn lemma_anchor_count(peaks: Seq<Peak>, i: int, j: int)
    requires
        j >= 1,
    ensures
        anchor_fingerprints(peaks, i, j).len() <= j - 1,
    decreases j,
{
    if j > 1 {
        lemma_anchor_count(peaks, i, j - 1);
    }
}

proof fn lemma_upto_count(peaks: Seq<Peak>, n: int)
    requires
        n >= 0,
    ensures
        fingerprints_upto(peaks, n).len() <= (FAN_VALUE - 1) * n,
    decreases n,
{
    if n > 0 {
        lemma_upto_count(peaks, n - 1);
        lemma_anchor_count(peaks, n - 1, FAN_VALUE as int);
    }
}

/// Each anchor emits at most `FAN_VALUE - 1` fingerprints, so a list of `n`
/// peaks gives at most `(FAN_VALUE - 1) * n`.
pub proof fn lemma_fingerprint_count(peaks: Seq<Peak>)
    ensures
        fingerprints_of(peaks).len() <= (FAN_VALUE - 1) * peaks.len(),
{
    lemma_upto_count(peaks, peaks.len() as int);
}

} // verus!
