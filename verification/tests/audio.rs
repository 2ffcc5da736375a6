use zetta_com::audio::{
    capture_step, padded, Capture,
    choose_device, codec_rate, downmix_i16, frame_len, mix_ready, nearest_opus, opus_accepts, opus_rate,
    pick, watched_device, AudioError, Choice, ConfigRange, DeviceChoice, OpusRate, PickError, Playback,
    Rebuild, SampleFormat, Step, StreamConfig, Watch, DEAD_STREAM_POLLS, CAPTURE_BACKOFF_POLLS,
};

#[test]
fn nearest_opus_rounds_down() {
    assert_eq!(nearest_opus(44_100), 24_000);
    assert_eq!(nearest_opus(48_000), 48_000);
    assert_eq!(nearest_opus(96_000), 48_000);
    assert_eq!(nearest_opus(22_050), 16_000);
    assert_eq!(nearest_opus(16_000), 16_000);
    assert_eq!(nearest_opus(11_025), 8_000);
    assert_eq!(nearest_opus(0), 8_000);
}

#[test]
fn codec_rate_keeps_opus_rates() {
    assert!(opus_accepts(12_000));
    assert!(!opus_accepts(44_100));
    assert_eq!(codec_rate(12_000), 12_000);
    assert_eq!(codec_rate(44_100), 24_000);
    assert_eq!(frame_len(48_000), 960);
    assert_eq!(frame_len(8_000), 160);
}

#[test]
fn opus_rate_maps_or_refuses() {
    assert_eq!(opus_rate(48_000), Ok(OpusRate::Hz48000));
    assert_eq!(opus_rate(8_000), Ok(OpusRate::Hz8000));
    assert_eq!(opus_rate(44_100), Err(AudioError::NotAnOpusRate(44_100)));
}

fn range(format: SampleFormat, channels: u16, min_rate: u32, max_rate: u32) -> ConfigRange {
    ConfigRange { format, channels, min_rate, max_rate }
}

#[test]
fn pick_takes_a_usable_default() {
    let d = StreamConfig { rate: 48_000, format: SampleFormat::F32, channels: 2 };
    assert_eq!(pick(Some(d), Err("not asked".to_string())), Ok(Choice::Default));
    let d = StreamConfig { rate: 16_000, format: SampleFormat::I16, channels: 1 };
    assert_eq!(pick(Some(d), Ok(vec![])), Ok(Choice::Default));
}

#[test]
fn pick_prefers_rate_then_format_then_fewest_channels() {
    let d = StreamConfig { rate: 44_100, format: SampleFormat::F32, channels: 2 };
    let rs = vec![
        range(SampleFormat::I16, 1, 8_000, 48_000),
        range(SampleFormat::F32, 2, 8_000, 48_000),
        range(SampleFormat::F32, 1, 8_000, 48_000),
        range(SampleFormat::F32, 1, 8_000, 48_000),
    ];
    assert_eq!(pick(Some(d), Ok(rs)), Ok(Choice::Range { index: 2, rate: 48_000 }));
}

#[test]
fn pick_falls_to_a_lower_rate() {
    let rs = vec![range(SampleFormat::Other, 1, 8_000, 48_000), range(SampleFormat::I16, 2, 8_000, 44_100)];
    assert_eq!(pick(None, Ok(rs)), Ok(Choice::Range { index: 1, rate: 24_000 }));
}

#[test]
fn pick_resamples_around_the_default_when_nothing_fits() {
    let d = StreamConfig { rate: 44_100, format: SampleFormat::I16, channels: 2 };
    let rs = vec![range(SampleFormat::F32, 2, 44_100, 44_100)];
    assert_eq!(pick(Some(d), Ok(rs)), Ok(Choice::Default));
}

#[test]
fn pick_errors() {
    let rs = vec![range(SampleFormat::Other, 2, 8_000, 48_000)];
    assert_eq!(pick(None, Ok(rs.clone())), Err(PickError::NoUsable(rs)));
    let d = StreamConfig { rate: 44_100, format: SampleFormat::Other, channels: 2 };
    assert_eq!(pick(Some(d), Err("gone".to_string())), Err(PickError::Unlisted("gone".to_string())));
}

#[test]
fn choose_device_by_name_or_default() {
    let names = vec!["Mic A".to_string(), "Mic B".to_string(), "Mic B".to_string()];
    let b = "Mic B".to_string();
    let c = "Mic C".to_string();
    assert_eq!(choose_device(Some(&b), Some(&names)), DeviceChoice::Named(1));
    assert_eq!(choose_device(Some(&c), Some(&names)), DeviceChoice::Default { missing: true });
    assert_eq!(choose_device(None, Some(&names)), DeviceChoice::Default { missing: false });
    assert_eq!(choose_device(Some(&b), None), DeviceChoice::Default { missing: true });
}

#[test]
fn watched_device_prefers_the_pinned_name() {
    assert_eq!(watched_device(&Some("X".to_string()), Some("Y".to_string())), Some("X".to_string()));
    assert_eq!(watched_device(&None, Some("Y".to_string())), Some("Y".to_string()));
    assert_eq!(watched_device(&None, None), None);
}

#[test]
fn watch_finds_dead_playback() {
    let mut w = Watch::new(true, 0, true, 0);
    let mut attempts: u32 = 0;
    assert_eq!(w.poll(false, 1, 1, &mut attempts), None);
    for _ in 1..DEAD_STREAM_POLLS {
        assert_eq!(w.poll(false, 1, 2 + w.quiet as u64, &mut attempts), None);
    }
    assert_eq!(w.poll(false, 1, 100, &mut attempts), Some(Rebuild::PlaybackDead));
    assert_eq!(attempts, 0);
}

#[test]
fn watch_finds_dead_capture_and_backs_off() {
    let mut w = Watch::new(true, 0, true, 0);
    let mut attempts: u32 = 0;
    assert_eq!(w.poll(false, 1, 0, &mut attempts), None);
    assert_eq!(w.poll(false, 2, 0, &mut attempts), None);
    assert_eq!(w.poll(false, 3, 0, &mut attempts), Some(Rebuild::CaptureDead));
    assert_eq!(attempts, 1);

    let mut attempts: u32 = 2;
    let mut w = Watch::new(true, 0, true, 0);
    for n in 1..CAPTURE_BACKOFF_POLLS {
        assert_eq!(w.poll(false, n as u64, 0, &mut attempts), None);
    }
    assert_eq!(w.poll(false, 1000, 0, &mut attempts), Some(Rebuild::CaptureDead));
    assert_eq!(attempts, 3);
}

#[test]
fn watch_clears_attempts_when_heard_and_rebuilds_on_change() {
    let mut w = Watch::new(false, 0, true, 0);
    let mut attempts: u32 = 5;
    assert_eq!(w.poll(false, 0, 1, &mut attempts), None);
    assert_eq!(attempts, 0);
    let mut attempts: u32 = 4;
    assert_eq!(w.poll(true, 0, 1, &mut attempts), Some(Rebuild::DevicesChanged));
    assert_eq!(attempts, 4);
    // No output stream is never dead.
    let mut w = Watch::new(false, 0, false, 0);
    for _ in 0..10 {
        assert_eq!(w.poll(false, 0, 0, &mut attempts), None);
    }
}

#[test]
fn playback_primes_drains_and_reprimes() {
    let mut p = Playback::new();
    assert!(!p.primed);
    assert_eq!(p.step(false, 100, 200, 300), Step { play: false, underrun: true, reprimed: false });
    assert!(!p.primed);
    assert_eq!(p.step(false, 600, 200, 300), Step { play: true, underrun: false, reprimed: true });
    assert!(p.primed);
    assert_eq!(p.step(false, 400, 200, 300), Step { play: true, underrun: false, reprimed: false });
    assert_eq!(p.step(false, 100, 200, 300), Step { play: false, underrun: true, reprimed: false });
    assert!(!p.primed);
}

#[test]
fn playback_is_silent_while_transmitting() {
    let mut p = Playback::new();
    p.step(false, 600, 200, 300);
    assert_eq!(p.step(true, 1000, 200, 300), Step { play: false, underrun: false, reprimed: false });
    assert!(p.primed);
}

#[test]
fn downmix_averages_toward_zero() {
    assert_eq!(downmix_i16(&[1, 3, -1, -2, 5], 2), vec![2, -1]);
    assert_eq!(downmix_i16(&[4, -7, 9], 1), vec![4, -7, 9]);
    assert_eq!(downmix_i16(&[i16::MAX; 3], 3), vec![i16::MAX]);
    assert_eq!(downmix_i16(&[i16::MIN, i16::MIN], 2), vec![i16::MIN]);
    assert_eq!(downmix_i16(&[1], 2), Vec::<i16>::new());
}

#[test]
fn mix_sums_frames_and_keeps_leftovers() {
    let mut qs = vec![vec![1, 2, 3, 4, 5], vec![10, 20]];
    let out = mix_ready(&mut qs, 2);
    assert_eq!(out, vec![vec![11, 22], vec![3, 4]]);
    assert_eq!(qs, vec![vec![5], vec![]]);
}

#[test]
fn mix_clips_instead_of_wrapping() {
    let mut qs = vec![vec![30_000, -30_000], vec![30_000, -30_000]];
    let out = mix_ready(&mut qs, 2);
    assert_eq!(out, vec![vec![i16::MAX, i16::MIN]]);
    assert_eq!(qs, vec![Vec::<i16>::new(), vec![]]);
}

#[test]
fn mix_of_one_talker_is_that_talker() {
    let mut qs = vec![vec![7, 8, 9, 1]];
    assert_eq!(mix_ready(&mut qs, 3), vec![vec![7, 8, 9]]);
    assert_eq!(qs, vec![vec![1]]);
    let mut none: Vec<Vec<i16>> = vec![];
    assert!(mix_ready(&mut none, 3).is_empty());
}

#[test]
fn capture_encodes_only_while_the_key_is_held() {
    assert_eq!(capture_step(100, 960, true), Capture::Wait);
    assert_eq!(capture_step(100, 960, false), Capture::Wait);
    assert_eq!(capture_step(960, 960, false), Capture::Discard);
    assert_eq!(capture_step(2000, 960, true), Capture::Encode);
}

#[test]
fn short_frames_are_padded_with_silence() {
    assert_eq!(padded(&[1, 2, 3, 9], 3, 5), vec![1, 2, 3, 0, 0]);
    assert_eq!(padded(&[1, 2], 2, 2), vec![1, 2]);
    assert_eq!(padded(&[], 0, 3), vec![0, 0, 0]);
}
