use dejavu::consts::{MIN_AMP, OVERLAP};
use dejavu::peaks::{get_2d_local_max, spectrogram_to_sorted_peaks};
use dejavu::fingerprint::Peak;

fn pairs(p: &[Peak]) -> Vec<(usize, usize)> {
    p.iter().map(|q| (q.time, q.freq)).collect()
}

#[test]
fn empty_spectrogram_has_no_peaks() {
    assert!(get_2d_local_max(&[], 16, 0, 0).is_empty());
    assert!(spectrogram_to_sorted_peaks(&[]).is_empty());
}

#[test]
fn one_peak_per_tile() {
    // 16 wide, 8 high: two tiles side by side
    let mut data = vec![1u32; 16 * 8];
    data[3 * 16 + 2] = 9; // left tile
    data[5 * 16 + 12] = 7; // right tile
    data[6 * 16 + 13] = 6;
    let p = get_2d_local_max(&data, 16, 8, 0);
    assert_eq!(pairs(&p), vec![(3, 2), (5, 12)]);
}

#[test]
fn tie_keeps_first_in_row_major_order() {
    let mut data = vec![0u32; 8 * 8];
    data[2 * 8 + 6] = 5;
    data[4 * 8 + 1] = 5;
    data[2 * 8 + 7] = 5;
    let p = get_2d_local_max(&data, 8, 8, 0);
    assert_eq!(pairs(&p), vec![(2, 6)]);
}

#[test]
fn threshold_is_exclusive() {
    let mut data = vec![0u32; 8 * 8];
    data[10] = 4;
    assert!(get_2d_local_max(&data, 8, 8, 4).is_empty());
    assert_eq!(pairs(&get_2d_local_max(&data, 8, 8, 3)), vec![(1, 2)]);
}

#[test]
fn clipped_edge_tiles_are_scanned() {
    // 10 wide, 3 high: tiles 8x3 and 2x3
    let mut data = vec![0u32; 30];
    data[2 * 10 + 9] = 3;
    data[1 * 10 + 4] = 2;
    let p = get_2d_local_max(&data, 10, 3, 0);
    assert_eq!(pairs(&p), vec![(1, 4), (2, 9)]);
}

#[test]
fn peaks_sorted_by_time_and_capped() {
    let w = 20usize;
    let h = 19usize;
    let data: Vec<u32> = (0..w * h).map(|i| ((i * 7919) % 1000) as u32 + 1).collect();
    let p = get_2d_local_max(&data, w, h, 0);
    let cap = ((w + 7) / 8) * ((h + 7) / 8);
    assert_eq!(p.len(), cap);
    assert!(p.len() <= cap);
    for k in 1..p.len() {
        assert!(p[k - 1].time <= p[k].time);
    }
    assert_eq!(get_2d_local_max(&data, w, h, 0), p);
}

#[test]
fn height_limits_rows() {
    let mut data = vec![0u32; 8 * 16];
    data[12 * 8 + 3] = 9;
    data[2 * 8 + 3] = 1;
    assert_eq!(pairs(&get_2d_local_max(&data, 8, 8, 0)), vec![(2, 3)]);
    assert_eq!(pairs(&get_2d_local_max(&data, 8, 16, 0)), vec![(2, 3), (12, 3)]);
}

#[test]
fn spectrogram_rows_are_windows() {
    let mut data = vec![0u32; OVERLAP * 2];
    data[OVERLAP + 100] = MIN_AMP + 1;
    data[5] = MIN_AMP;
    let p = spectrogram_to_sorted_peaks(&data);
    assert_eq!(pairs(&p), vec![(1, 100)]);
}
