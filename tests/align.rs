use dejavu::align::{align_fingerprints, FingerprintDifference};
use dejavu::fingerprint::Fingerprint;

fn fps(list: &[(u128, usize)]) -> Vec<Fingerprint> {
    list.iter().map(|&(hash, time)| Fingerprint { hash, time }).collect()
}

#[test]
fn empty_inputs_give_no_match() {
    let some = fps(&[(1, 0), (2, 3)]);
    assert_eq!(align_fingerprints(&[], &some), None);
    assert_eq!(align_fingerprints(&some, &[]), None);
    assert_eq!(align_fingerprints(&[], &[]), None);
}

#[test]
fn disjoint_hashes_give_no_match() {
    let a = fps(&[(1, 0), (2, 3), (3, 9)]);
    let b = fps(&[(4, 0), (5, 3)]);
    assert_eq!(align_fingerprints(&a, &b), None);
}

#[test]
fn self_alignment_is_zero() {
    let a = fps(&[(11, 4), (12, 7), (13, 7), (14, 20)]);
    let r = align_fingerprints(&a, &a).unwrap();
    assert_eq!(r.most_common_offset, 0);
    assert_eq!(r.most_common_offset_occurences, 4);
    assert_eq!(r.first_sample_offset_match, 4);
}

#[test]
fn shifted_sample_gives_shift() {
    let reference = fps(&[(1, 0), (2, 5), (3, 10), (4, 15), (5, 20), (6, 25)]);
    // the sample is windows 10.. of the reference, re-timed from zero
    let sample = fps(&[(3, 0), (4, 5), (5, 10), (6, 15)]);
    let r = align_fingerprints(&reference, &sample).unwrap();
    assert_eq!(
        r,
        FingerprintDifference { most_common_offset: 10, most_common_offset_occurences: 4, first_sample_offset_match: 0 }
    );
}

#[test]
fn tie_goes_to_offset_voted_first() {
    // offsets in reference order: 7, 5, 7, 5
    let reference = fps(&[(1, 17), (2, 15), (3, 27), (4, 25)]);
    let sample = fps(&[(1, 10), (2, 10), (3, 20), (4, 20)]);
    let r = align_fingerprints(&reference, &sample).unwrap();
    assert_eq!(r.most_common_offset, 7);
    assert_eq!(r.most_common_offset_occurences, 2);
    assert_eq!(r.first_sample_offset_match, 10);
    // reversed reference order: 5 is voted first
    let reversed: Vec<Fingerprint> = reference.iter().rev().copied().collect();
    let r = align_fingerprints(&reversed, &sample).unwrap();
    assert_eq!(r.most_common_offset, 5);
    assert_eq!(r.first_sample_offset_match, 20);
}

#[test]
fn last_sample_fingerprint_wins_per_hash() {
    let reference = fps(&[(9, 30)]);
    let sample = fps(&[(9, 1), (9, 4)]);
    let r = align_fingerprints(&reference, &sample).unwrap();
    assert_eq!(r.most_common_offset, 26);
    assert_eq!(r.first_sample_offset_match, 4);
}

#[test]
fn negative_offsets_and_swapped_roles() {
    let a = fps(&[(1, 2), (2, 6), (3, 9), (8, 40)]);
    let b = fps(&[(1, 12), (2, 16), (3, 19), (7, 0)]);
    let ab = align_fingerprints(&a, &b).unwrap();
    let ba = align_fingerprints(&b, &a).unwrap();
    assert_eq!(ab.most_common_offset, -10);
    assert_eq!(ba.most_common_offset, 10);
    assert_eq!(ab.most_common_offset_occurences, 3);
    assert_eq!(ba.most_common_offset_occurences, 3);
}

#[test]
fn majority_offset_wins() {
    let reference = fps(&[(1, 3), (2, 50), (3, 52), (4, 54)]);
    let sample = fps(&[(1, 0), (2, 0), (3, 2), (4, 4)]);
    let r = align_fingerprints(&reference, &sample).unwrap();
    assert_eq!(r.most_common_offset, 50);
    assert_eq!(r.most_common_offset_occurences, 3);
    assert_eq!(r.first_sample_offset_match, 0);
}
