use dejavu::consts::{FAN_VALUE, MAX_DELTA_TIME};
use dejavu::fingerprint::{pair_fingerprint_hash, pair_key_bytes, sorted_peaks_to_fingerprints, Fingerprint, Peak};

fn peaks(list: &[(usize, usize)]) -> Vec<Peak> {
    list.iter().map(|&(time, freq)| Peak { time, freq }).collect()
}

fn hex(h: u128) -> String {
    format!("{:032x}", h)
}

#[test]
fn pair_key_is_decimal_text() {
    assert_eq!(pair_key_bytes(10, 0, 123), b"10|0|123".to_vec());
    assert_eq!(pair_key_bytes(0, 7, 1), b"0|7|1".to_vec());
}

#[test]
fn pair_hash_is_md5_of_key() {
    assert_eq!(hex(pair_fingerprint_hash(10, 20, 5)), "6dfaf26fec3aa872ddd16f715da0949a");
    assert_eq!(hex(pair_fingerprint_hash(0, 0, 1)), "037fe0aa41d2cf99b01e003d8c6fa60f");
}

#[test]
fn duplicate_time_peaks_skip_zero_distance() {
    let p = peaks(&[(0, 10), (5, 20), (5, 20), (10, 30)]);
    let fps = sorted_peaks_to_fingerprints(&p);
    let got: Vec<(String, usize)> = fps.iter().map(|f| (hex(f.hash), f.time)).collect();
    let expected = vec![
        ("6dfaf26fec3aa872ddd16f715da0949a".to_string(), 0),
        ("6dfaf26fec3aa872ddd16f715da0949a".to_string(), 0),
        ("8406778fac12d376f65f7fc61f352c16".to_string(), 0),
        ("142654a02620ed619d65d68e4c6c0bbc".to_string(), 5),
        ("142654a02620ed619d65d68e4c6c0bbc".to_string(), 5),
    ];
    assert_eq!(got, expected);
}

#[test]
fn distance_bounds_are_exclusive() {
    let at_max = peaks(&[(0, 1), (MAX_DELTA_TIME, 2)]);
    assert!(sorted_peaks_to_fingerprints(&at_max).is_empty());
    let below_max = peaks(&[(0, 1), (MAX_DELTA_TIME - 1, 2)]);
    let fps = sorted_peaks_to_fingerprints(&below_max);
    assert_eq!(fps.len(), 1);
    assert_eq!(hex(fps[0].hash), "f2dde114ff12717b7cc46bf9b04464e6");
    assert_eq!(fps[0].time, 0);
    let same_time = peaks(&[(3, 1), (3, 2)]);
    assert!(sorted_peaks_to_fingerprints(&same_time).is_empty());
}

#[test]
fn fan_out_reaches_nine_partners() {
    let list: Vec<(usize, usize)> = (1..=12).map(|t| (t, 100 + t)).collect();
    let fps = sorted_peaks_to_fingerprints(&peaks(&list));
    let from_first = fps.iter().filter(|f| f.time == 1).count();
    assert_eq!(from_first, FAN_VALUE - 1);
    // anchors k = 1..12 pair with min(9, 12 - k) later peaks
    let total: usize = (1..=12usize).map(|k| std::cmp::min(9, 12 - k)).sum();
    assert_eq!(fps.len(), total);
}

#[test]
fn empty_and_single_peak_lists_give_nothing() {
    assert!(sorted_peaks_to_fingerprints(&[]).is_empty());
    assert!(sorted_peaks_to_fingerprints(&peaks(&[(4, 4)])).is_empty());
}

#[test]
fn fingerprints_are_deterministic() {
    let p = peaks(&[(0, 3), (2, 9), (4, 1), (7, 7), (9, 2)]);
    let a: Vec<Fingerprint> = sorted_peaks_to_fingerprints(&p);
    let b: Vec<Fingerprint> = sorted_peaks_to_fingerprints(&p);
    assert_eq!(a, b);
    assert_eq!(pair_fingerprint_hash(3, 9, 2), pair_fingerprint_hash(3, 9, 2));
    assert_ne!(pair_fingerprint_hash(3, 9, 2), pair_fingerprint_hash(9, 3, 2));
}

#[test]
fn every_fingerprint_distance_is_in_window() {
    let p = peaks(&[(0, 1), (0, 2), (150, 3), (260, 4), (261, 5), (500, 6)]);
    let fps = sorted_peaks_to_fingerprints(&p);
    let mut expected = Vec::new();
    for i in 0..p.len() {
        for j in 1..FAN_VALUE {
            if i + j < p.len() {
                let d = p[i + j].time - p[i].time;
                if d > 0 && d < MAX_DELTA_TIME {
                    expected.push(Fingerprint { hash: pair_fingerprint_hash(p[i].freq, p[i + j].freq, d), time: p[i].time });
                }
            }
        }
    }
    assert_eq!(fps, expected);
    assert_eq!(fps.len(), 5);
}

#[test]
fn hash_renders_as_md5_hex_text() {
    let fp = Fingerprint { hash: pair_fingerprint_hash(10, 30, 10), time: 0 };
    assert_eq!(fp.hash_hex(), b"8406778fac12d376f65f7fc61f352c16".to_vec());
    let small = Fingerprint { hash: 0xab, time: 0 };
    assert_eq!(small.hash_hex(), b"000000000000000000000000000000ab".to_vec());
}
