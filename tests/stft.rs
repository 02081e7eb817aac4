use dejavu::consts::{FFT_SIZE, OVERLAP};
use dejavu::stft::{timesteps, ChannelBuffer};

#[test]
fn push_channel_takes_every_other_sample() {
    let mut b = ChannelBuffer::new();
    b.push_channel(&[1, -1, 2, -2, 3, -3], 0, 2);
    assert_eq!(b.samples(), &[1, 2, 3]);
    let mut c = ChannelBuffer::new();
    c.push_channel(&[1, -1, 2, -2, 3, -3], 1, 2);
    assert_eq!(c.samples(), &[-1, -2, -3]);
}

#[test]
fn windows_need_more_than_a_full_window() {
    let mut b = ChannelBuffer::new();
    let frame: Vec<i16> = vec![0; 2 * FFT_SIZE];
    b.push_channel(&frame, 0, 2);
    assert_eq!(b.samples().len(), FFT_SIZE);
    assert_eq!(b.next_window(), None);
    b.push_channel(&[5, 6], 0, 2);
    assert_eq!(b.next_window(), Some(0));
    assert_eq!(b.position(), OVERLAP);
    assert_eq!(b.next_window(), None);
}

#[test]
fn windows_advance_by_one_hop() {
    let mut b = ChannelBuffer::new();
    let frame: Vec<i16> = vec![1; 2 * (FFT_SIZE + 3 * OVERLAP + 1)];
    b.push_channel(&frame, 0, 2);
    let mut starts = Vec::new();
    while let Some(s) = b.next_window() {
        starts.push(s);
    }
    assert_eq!(starts, vec![0, OVERLAP, 2 * OVERLAP, 3 * OVERLAP]);
    assert_eq!(b.position(), 4 * OVERLAP);
}

#[test]
fn timesteps_counts_rows() {
    assert_eq!(timesteps(0), 0);
    assert_eq!(timesteps(OVERLAP * 5), 5);
    assert_eq!(timesteps(OVERLAP * 5 + 7), 5);
}
