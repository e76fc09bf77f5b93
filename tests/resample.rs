use music_trainer::{frames_of, get_sample, prepare_note, trans_sample};

fn lerp(a: f32, b: f32, num: u32, den: u32) -> f32 {
    let s = num as f32 / den as f32;
    a * (1.0 - s) + b * s
}

fn table(rows: &[&[f32]]) -> Vec<Vec<f32>> {
    rows.iter().map(|r| r.to_vec()).collect()
}

#[test]
fn same_rate_returns_the_table_unchanged() {
    let src = table(&[&[0.1, -0.2], &[0.3, 0.4], &[-0.5, 0.6], &[0.7, -0.8]]);
    let out = trans_sample(src.clone(), 44100, 44100, 2, 0.0, lerp);
    assert_eq!(out, src);
}

#[test]
fn length_is_rounded_duration() {
    let src: Vec<Vec<f32>> = (0..10).map(|i| vec![i as f32]).collect();
    // 10 frames at 44.1 kHz last 10.88 frames at 48 kHz.
    assert_eq!(trans_sample(src.clone(), 44100, 48000, 1, 0.0, lerp).len(), 11);
    // 10 frames at 48 kHz last 9.19 frames at 44.1 kHz.
    assert_eq!(trans_sample(src.clone(), 48000, 44100, 1, 0.0, lerp).len(), 9);
    assert_eq!(trans_sample(src, 3, 1, 1, 0.0, lerp).len(), 3);
}

#[test]
fn upsampling_interpolates_between_frames() {
    let src = table(&[&[0.0], &[1.0]]);
    let out = trans_sample(src, 1, 2, 1, 0.0, lerp);
    assert_eq!(out, table(&[&[0.0], &[0.5], &[1.0], &[1.0]]));
}

#[test]
fn downsampling_picks_source_frames() {
    let src = table(&[&[0.0], &[1.0], &[2.0], &[3.0]]);
    let out = trans_sample(src, 2, 1, 1, 0.0, lerp);
    assert_eq!(out, table(&[&[0.0], &[2.0]]));
}

#[test]
fn fractional_position_blends_each_channel() {
    let src = table(&[&[0.0, 1.0], &[1.0, 0.0], &[0.5, 0.5]]);
    // Frame 1 at 4 -> 3 lies a third of the way past source frame 1.
    let f = get_sample(&src, 1, 4, 3, 2, 0.0, &lerp);
    assert_eq!(f.len(), 2);
    assert!((f[0] - (1.0 - 0.5 / 3.0)).abs() < 1e-6);
    assert!((f[1] - 0.5 / 3.0).abs() < 1e-6);
}

#[test]
fn last_source_frame_is_copied() {
    let src = table(&[&[0.25, 0.5], &[0.75, 1.0]]);
    // Position 1.5 has no frame to its right.
    assert_eq!(get_sample(&src, 3, 1, 2, 2, 0.0, &lerp), vec![0.75, 1.0]);
}

#[test]
fn past_the_end_is_silent() {
    let src = table(&[&[0.25, 0.5], &[0.75, 1.0]]);
    assert_eq!(get_sample(&src, 5, 1, 1, 2, 0.0, &lerp), vec![0.0, 0.0]);
    assert_eq!(get_sample(&Vec::new(), 0, 1, 1, 3, 0.0, &lerp), vec![0.0, 0.0, 0.0]);
}

#[test]
fn frames_group_interleaved_samples() {
    let out = frames_of(vec![1, 2, 3, 4, 5, 6], 2);
    assert_eq!(out, vec![vec![1, 2], vec![3, 4], vec![5, 6]]);
    let out = frames_of(vec![1, 2, 3], 1);
    assert_eq!(out, vec![vec![1], vec![2], vec![3]]);
}

#[test]
fn incomplete_trailing_frame_is_dropped() {
    let out = frames_of(vec![1, 2, 3, 4, 5], 2);
    assert_eq!(out, vec![vec![1, 2], vec![3, 4]]);
    assert!(frames_of(vec![1, 2], 3).is_empty());
}

#[test]
fn prepared_note_is_framed_then_resampled() {
    let out = prepare_note(vec![0.0f32, 1.0, 1.0, 0.0], 2, 1, 2, 0.0, lerp);
    assert_eq!(out, table(&[&[0.0, 1.0], &[0.5, 0.5], &[1.0, 0.0], &[1.0, 0.0]]));
}
