use audio_spectrum::resample::{downsample, interpsample, loc, Position, ResampleError};

fn lerp(a: f32, b: f32, num: usize, den: usize) -> f32 {
    a + (b - a) * (num as f32 / den as f32)
}

fn near(a: f32, b: f32) -> bool {
    (a - b).abs() < 0.00001
}

fn resampled(src: &[f32], len: usize) -> Vec<f32> {
    let mut dst = vec![0.0f32; len];
    assert_eq!(downsample(src, &mut dst, &lerp), Ok(()));
    dst
}

#[test]
fn tintersample() {
    let src = [3.0f32, 6.0, 2.0];
    let p = loc(src.len(), 5, 0);
    assert!(near(interpsample(&src, p, &lerp), 3.0));
}

#[test]
fn tloc() {
    for i in 2..1000usize {
        let last = loc(1000, i, i - 1);
        assert!(last.upper <= 999);
        assert_eq!(last.lower, 999);
        assert_eq!(last.offset, 0);
        let first = loc(1000, i, 0);
        assert_eq!(first.lower, 0);
        assert_eq!(first.offset, 0);
    }
}

#[test]
fn upsample() {
    let src = [3.0f32, 6.0, 2.0];
    let mut dest = [0.0f32; 5];
    let expected = [3.0f32, 4.5, 6.0, 4.0, 2.0];
    assert_eq!(downsample(&src, &mut dest, &lerp), Ok(()));
    for (e, d) in expected.iter().zip(&dest) {
        assert!(near(*e, *d));
    }
}

#[test]
fn tdownsample() {
    let src = [3.0f32, 6.0, -4.0, 2.0];
    let mut dest = [0.0f32; 3];
    let expected = [3.0f32, 1.0, 2.0];
    assert_eq!(downsample(&src, &mut dest, &lerp), Ok(()));
    for (e, d) in expected.iter().zip(&dest) {
        assert!(near(*e, *d));
    }
}

#[test]
fn loc_between_control_points() {
    // slot 1 of 5 over 3 values sits at source index 0.5
    assert_eq!(loc(3, 5, 1), Position { lower: 0, upper: 1, offset: 2, span: 4 });
    // slot 2 of 5 lands on source index 1
    assert_eq!(loc(3, 5, 2), Position { lower: 1, upper: 1, offset: 0, span: 4 });
    // slot 1 of 3 over 4 values sits at source index 1.5
    assert_eq!(loc(4, 3, 1), Position { lower: 1, upper: 2, offset: 1, span: 2 });
}

#[test]
fn interpsample_between_neighbours() {
    let src = [3.0f32, 6.0, 2.0];
    assert!(near(interpsample(&src, loc(3, 5, 1), &lerp), 4.5));
    assert!(near(interpsample(&src, loc(3, 5, 3), &lerp), 4.0));
}

#[test]
fn empty_source_is_refused() {
    let mut dst = [7.0f32; 4];
    assert_eq!(downsample(&[], &mut dst, &lerp), Err(ResampleError::EmptySource));
    assert_eq!(dst, [7.0f32; 4]);
}

#[test]
fn short_destination_is_refused() {
    let src = [1.0f32, 2.0];
    let mut one = [7.0f32; 1];
    assert_eq!(downsample(&src, &mut one, &lerp), Err(ResampleError::DestinationTooShort));
    assert_eq!(one, [7.0f32]);
    let mut none: [f32; 0] = [];
    assert_eq!(downsample(&src, &mut none, &lerp), Err(ResampleError::DestinationTooShort));
}

#[test]
fn empty_source_is_reported_before_short_destination() {
    let mut one = [7.0f32; 1];
    assert_eq!(downsample(&[], &mut one, &lerp), Err(ResampleError::EmptySource));
}

#[test]
fn length_and_endpoints_are_kept() {
    let src = [0.5f32, -2.0, 9.0, 4.0, 4.0, 1.25, -7.5];
    for len in 2..40usize {
        let out = resampled(&src, len);
        assert_eq!(out.len(), len);
        assert_eq!(out[0], 0.5);
        assert_eq!(out[len - 1], -7.5);
    }
}

#[test]
fn single_source_value_fills_every_slot() {
    let out = resampled(&[2.5f32], 6);
    assert_eq!(out, vec![2.5f32; 6]);
}

#[test]
fn same_length_copies_the_source() {
    let src = [1.0f32, -3.0, 8.0, 0.0];
    assert_eq!(resampled(&src, 4), src.to_vec());
}

#[test]
fn rising_source_gives_rising_output() {
    let src = [0.0f32, 1.0, 1.5, 4.0, 10.0];
    for len in 2..30usize {
        let out = resampled(&src, len);
        for w in out.windows(2) {
            assert!(w[0] <= w[1]);
        }
    }
}

#[test]
fn repeated_resampling_keeps_only_the_endpoints() {
    let src = [3.0f32, 6.0, 2.0];
    let once = resampled(&src, 5);
    let back = resampled(&once, 3);
    let down = resampled(&src, 2);
    let up_again = resampled(&down, 3);
    assert_eq!(back[0], 3.0);
    assert_eq!(back[2], 2.0);
    assert_eq!(up_again[0], 3.0);
    assert_eq!(up_again[2], 2.0);
    // the middle value is lost on the way through two slots
    assert!(near(up_again[1], 2.5));
    assert!(!near(up_again[1], src[1]));
}

#[test]
fn rising_source_stays_rising_through_two_resamplings() {
    let src = [-1.0f32, -0.5, 0.0, 2.0, 2.0, 7.0];
    for m in 2..20usize {
        let mid = resampled(&src, m);
        for n in 2..20usize {
            let out = resampled(&mid, n);
            for w in out.windows(2) {
                assert!(w[0] <= w[1]);
            }
        }
    }
}

#[test]
fn rising_region_stays_rising() {
    // rises over source indices 0..=3, falls after
    let src = [0.0f32, 1.0, 3.0, 6.0, 2.0, -5.0];
    let out = resampled(&src, 11);
    // slots 0..=6 sit at source positions 0, 0.5, .., 3.0
    for i in 0..6 {
        assert!(out[i] <= out[i + 1]);
    }
    assert!(out[7] < out[6]);
}
