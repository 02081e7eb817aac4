use dejavu::fingerprint::Peak;
use dejavu::plot::peaks_image;

#[test]
fn peaks_are_black_on_white() {
    let peaks = vec![Peak { time: 1, freq: 2 }, Peak { time: 0, freq: 0 }, Peak { time: 5, freq: 0 }];
    let img = peaks_image(&peaks, 3, 2);
    assert_eq!(img.len(), 18);
    let mut expected = vec![255u8; 18];
    for c in 0..3 {
        expected[c] = 0;
        expected[(1 * 3 + 2) * 3 + c] = 0;
    }
    assert_eq!(img, expected);
}

#[test]
fn empty_image() {
    assert!(peaks_image(&[], 0, 4).is_empty());
    assert_eq!(peaks_image(&[], 2, 1), vec![255u8; 6]);
}
