use audio_spectrum::store::{num_samples_to_save, CaptureError, CaptureFormat, SampleStore};

#[test]
fn samples_a() {
    let format = CaptureFormat { channels: 1, sample_rate: 16000 };
    assert_eq!(num_samples_to_save(100, &format), Ok(1600));
    assert_eq!(num_samples_to_save(1000, &format), Ok(16000));
}

#[test]
fn samples_b() {
    let format = CaptureFormat { channels: 2, sample_rate: 44100 };
    assert_eq!(num_samples_to_save(100, &format), Ok(2205));
    assert_eq!(num_samples_to_save(1000, &format), Ok(22050));
}

#[test]
fn capacity_rounds_to_nearest_sample() {
    let format = CaptureFormat { channels: 1, sample_rate: 1005 };
    // 1.005 samples per millisecond: 0.5025 rounds up, 0.4 rounds down
    assert_eq!(num_samples_to_save(500, &format), Ok(503));
    assert_eq!(num_samples_to_save(398, &format), Ok(400));
    let halves = CaptureFormat { channels: 1, sample_rate: 5 };
    assert_eq!(num_samples_to_save(100, &halves), Ok(1));
    assert_eq!(num_samples_to_save(99, &halves), Ok(0));
}

#[test]
fn capacity_uses_real_rate_per_channel() {
    let format = CaptureFormat { channels: 3, sample_rate: 44100 };
    assert_eq!(num_samples_to_save(100, &format), Ok(1470));
    // 22050.5 samples per second of one channel
    let odd = CaptureFormat { channels: 2, sample_rate: 44101 };
    assert_eq!(num_samples_to_save(1000, &odd), Ok(22051));
    // 1.5 samples per second of one channel
    let slow = CaptureFormat { channels: 2, sample_rate: 3 };
    assert_eq!(num_samples_to_save(1000, &slow), Ok(2));
    // 1.4 samples per second of one channel
    let slower = CaptureFormat { channels: 5, sample_rate: 7 };
    assert_eq!(num_samples_to_save(1000, &slower), Ok(1));
}

#[test]
fn zero_channels_are_refused() {
    let format = CaptureFormat { channels: 0, sample_rate: 44100 };
    assert_eq!(num_samples_to_save(100, &format), Err(CaptureError::ZeroChannels));
}

#[test]
fn largest_window_fits() {
    let format = CaptureFormat { channels: 1, sample_rate: u32::MAX };
    let expected = (2 * u32::MAX as u128 * u32::MAX as u128 + 1000) / 2000;
    assert_eq!(num_samples_to_save(u32::MAX, &format), Ok(expected as usize));
}

#[test]
fn overfull_append_keeps_newest_in_order() {
    let mut store: SampleStore<f32> = SampleStore::new(3);
    assert_eq!(store.append(&[1.0, 2.0, 3.0, 4.0, 5.0], 1), Ok(()));
    assert_eq!(store.len(), 3);
    assert_eq!(store.snapshot(), vec![3.0f32, 4.0, 5.0]);
}

#[test]
fn appends_one_at_a_time_keep_newest() {
    let mut store: SampleStore<i32> = SampleStore::new(3);
    for s in 1..=5 {
        assert_eq!(store.append(&[s], 1), Ok(()));
        assert!(store.len() <= 3);
    }
    assert_eq!(store.snapshot(), vec![3, 4, 5]);
}

#[test]
fn append_under_capacity_keeps_everything() {
    let mut store: SampleStore<i32> = SampleStore::new(10);
    assert_eq!(store.append(&[1, 2], 1), Ok(()));
    assert_eq!(store.append(&[3], 1), Ok(()));
    assert_eq!(store.snapshot(), vec![1, 2, 3]);
    assert_eq!(store.capacity(), 10);
}

#[test]
fn append_keeps_first_channel_of_each_frame() {
    let mut store: SampleStore<i32> = SampleStore::new(10);
    assert_eq!(store.append(&[10, -10, 20, -20, 30, -30], 2), Ok(()));
    assert_eq!(store.snapshot(), vec![10, 20, 30]);
    // a short last frame still gives its first sample
    assert_eq!(store.append(&[1, 2, 3, 4, 5, 6, 7], 3), Ok(()));
    assert_eq!(store.snapshot(), vec![10, 20, 30, 1, 4, 7]);
}

#[test]
fn append_with_zero_channels_is_refused() {
    let mut store: SampleStore<i32> = SampleStore::new(4);
    assert_eq!(store.append(&[1, 2], 1), Ok(()));
    assert_eq!(store.append(&[3, 4], 0), Err(CaptureError::ZeroChannels));
    assert_eq!(store.snapshot(), vec![1, 2]);
}

#[test]
fn empty_store_and_empty_batch() {
    let mut store: SampleStore<i32> = SampleStore::new(0);
    assert_eq!(store.append(&[1, 2, 3], 1), Ok(()));
    assert_eq!(store.len(), 0);
    let mut other: SampleStore<i32> = SampleStore::new(2);
    assert_eq!(other.append(&[], 2), Ok(()));
    assert!(other.snapshot().is_empty());
}

#[test]
fn resize_pads_older_end_with_fill() {
    let mut store: SampleStore<f32> = SampleStore::new(0);
    store.resize(4, 0.0);
    assert_eq!(store.snapshot(), vec![0.0f32; 4]);
    assert_eq!(store.capacity(), 4);
    assert_eq!(store.append(&[0.5, 0.25], 1), Ok(()));
    assert_eq!(store.snapshot(), vec![0.0f32, 0.0, 0.5, 0.25]);
}

#[test]
fn resize_down_keeps_newest() {
    let mut store: SampleStore<i32> = SampleStore::new(5);
    assert_eq!(store.append(&[1, 2, 3, 4, 5], 1), Ok(()));
    store.resize(2, 0);
    assert_eq!(store.snapshot(), vec![4, 5]);
    store.resize(4, 9);
    assert_eq!(store.snapshot(), vec![9, 9, 4, 5]);
}

#[test]
fn snapshot_is_a_copy() {
    let mut store: SampleStore<i32> = SampleStore::new(3);
    assert_eq!(store.append(&[1, 2], 1), Ok(()));
    let before = store.snapshot();
    assert_eq!(store.append(&[3, 4], 1), Ok(()));
    assert_eq!(before, vec![1, 2]);
    assert_eq!(store.snapshot(), vec![2, 3, 4]);
}
