use mixdown::errors::MixError;
use mixdown::timeline::{build_timeline, to_offset, Event};

#[test]
fn offset_at_zero_is_zero() {
    assert_eq!(to_offset(0), 0);
}

#[test]
fn offset_at_one_second_is_project_frame_count() {
    assert_eq!(to_offset(1_000_000), 88200);
}

#[test]
fn offset_rounds_down_to_even() {
    // raw interleaved index 11 rounds down to 10
    assert_eq!(to_offset(125), 10);
    for t in [0u64, 1, 17, 125, 999, 1_000_000, 48_000_000_000] {
        assert_eq!(to_offset(t) % 2, 0);
    }
}

#[test]
fn offset_is_monotone_on_samples() {
    let mut last = 0usize;
    for t in [0u64, 10, 50, 125, 1_000, 1_000_000] {
        let off = to_offset(t);
        assert!(off >= last);
        last = off;
    }
}

#[test]
fn build_timeline_groups_by_name() {
    let events = vec![
        Event { time_us: 0, volume: 32768, pan: 0, name: "kick".to_string() },
        Event { time_us: 50, volume: 16384, pan: 100, name: "snare".to_string() },
        Event { time_us: 1_000_000, volume: 32768, pan: 0, name: "kick".to_string() },
    ];
    let t = build_timeline(&events).unwrap();
    assert_eq!(t.group_count(), 2);
    let g0 = t.group_at(0);
    assert_eq!(g0.name, "kick");
    assert_eq!(g0.records.len(), 2);
    assert_eq!(g0.records[0].offset, 0);
    assert_eq!(g0.records[1].offset, 88200);
    let g1 = t.group_at(1);
    assert_eq!(g1.name, "snare");
    assert_eq!(g1.records.len(), 1);
    assert_eq!(g1.records[0].offset, 4);
    assert_eq!(g1.records[0].volume, 16384);
    assert_eq!(g1.records[0].pan, 100);
}

#[test]
fn duplicate_events_are_both_kept() {
    let events = vec![
        Event { time_us: 0, volume: 32768, pan: 0, name: "kick".to_string() },
        Event { time_us: 0, volume: 32768, pan: 0, name: "kick".to_string() },
    ];
    let t = build_timeline(&events).unwrap();
    assert_eq!(t.group_count(), 1);
    let g = t.group_at(0);
    assert_eq!(g.records.len(), 2);
    assert_eq!(g.records[0].offset, 0);
    assert_eq!(g.records[1].offset, 0);
}

#[test]
fn empty_source_name_is_invalid() {
    let events = vec![Event { time_us: 0, volume: 1, pan: 0, name: String::new() }];
    let r = build_timeline(&events);
    assert!(matches!(r, Err(MixError::InvalidEvent(_))));
    assert_eq!(r.unwrap_err().message(), "invalid event: empty source name");
}

#[test]
fn error_messages_carry_context() {
    let e = MixError::ResampleFailure("drum.wav".to_string());
    assert_eq!(e.message(), "resample failure: drum.wav");
    let e = MixError::EncodeFailure("no bytes".to_string());
    assert_eq!(e.message(), "encode failure: no bytes");
    let e = MixError::SourceUnavailable("drum.wav".to_string());
    assert_eq!(e.message(), "source unavailable: drum.wav");
}
