use mixdown::errors::MixError;
use mixdown::mix::{calculate_max_length, clip, mix_all};
use mixdown::pcm::to_pcm;
use mixdown::sample::{canonicalize, SampleCache};
use mixdown::timeline::{build_timeline, Event};
use mixdown::UNIT;

fn q(x: f32) -> i32 {
    (x * 32768.0).round() as i32
}

#[test]
fn end_to_end_single_event() {
    // one event row: time 0, volume 1.0, pan 0.0, source "kick"
    let kick: Vec<i32> = vec![q(0.5), q(0.5), q(0.2), q(0.2), q(0.1), q(0.1), q(0.0), q(0.0)];
    let mut cache = SampleCache::new();
    cache.insert(canonicalize("kick".to_string(), kick.clone(), 2).unwrap());
    let events = vec![Event {
        time_us: 0,
        volume: q(1.0),
        pan: q(0.0),
        name: "kick".to_string(),
    }];
    let t = build_timeline(&events).unwrap();
    assert_eq!(calculate_max_length(&cache, &t), 8);
    let mut out = mix_all(&cache, &t);
    let expected: Vec<i128> = kick.iter().map(|&v| v as i128).collect();
    // the pre-clip buffer equals the source verbatim
    assert_eq!(out, expected);
    clip(&mut out);
    // no clipping was triggered
    assert_eq!(out, expected);
    let pcm = to_pcm(&out);
    assert_eq!(pcm, vec![16384i16, 16384, 6554, 6554, 3277, 3277, 0, 0]);
}

#[test]
fn adjacent_events_fill_length_six() {
    // placements at offsets 0 and 4 of a one-frame source: length 6, no overlap
    let src: Vec<i32> = vec![1000, -1000];
    let mut cache = SampleCache::new();
    cache.insert(canonicalize("tick".to_string(), src, 2).unwrap());
    let events = vec![
        Event { time_us: 0, volume: UNIT, pan: 0, name: "tick".to_string() },
        Event { time_us: 50, volume: UNIT, pan: 0, name: "tick".to_string() },
    ];
    let t = build_timeline(&events).unwrap();
    let out = mix_all(&cache, &t);
    assert_eq!(out.len(), 6);
    assert_eq!(out, vec![1000i128, -1000, 0, 0, 1000, -1000]);
}

#[test]
fn event_order_of_disjoint_sources_is_immaterial() {
    let mut cache = SampleCache::new();
    cache.insert(canonicalize("a".to_string(), vec![10, 20], 2).unwrap());
    cache.insert(canonicalize("b".to_string(), vec![-5, 15], 2).unwrap());
    let forward = vec![
        Event { time_us: 0, volume: UNIT, pan: 0, name: "a".to_string() },
        Event { time_us: 50, volume: 16384, pan: -2000, name: "b".to_string() },
    ];
    let backward = vec![
        Event { time_us: 50, volume: 16384, pan: -2000, name: "b".to_string() },
        Event { time_us: 0, volume: UNIT, pan: 0, name: "a".to_string() },
    ];
    let t1 = build_timeline(&forward).unwrap();
    let t2 = build_timeline(&backward).unwrap();
    assert_eq!(mix_all(&cache, &t1), mix_all(&cache, &t2));
}

#[test]
fn mono_source_is_duplicated_into_stereo() {
    let c = canonicalize("m".to_string(), vec![1, 2, 3], 1).unwrap();
    assert_eq!(c.name, "m");
    assert_eq!(c.data, vec![1, 1, 2, 2, 3, 3]);
}

#[test]
fn stereo_source_is_kept_as_is() {
    let c = canonicalize("s".to_string(), vec![7, -7, 9, -9], 2).unwrap();
    assert_eq!(c.data, vec![7, -7, 9, -9]);
}

#[test]
fn unsupported_channel_count_is_unavailable() {
    let r = canonicalize("x".to_string(), vec![1, 2, 3], 3);
    assert!(matches!(r, Err(MixError::SourceUnavailable(_))));
    let r = canonicalize("x".to_string(), vec![1, 2, 3], 0);
    assert!(matches!(r, Err(MixError::SourceUnavailable(_))));
}

#[test]
fn stereo_ending_mid_frame_is_unavailable() {
    let r = canonicalize("x".to_string(), vec![1, 2, 3], 2);
    assert!(matches!(r, Err(MixError::SourceUnavailable(_))));
    assert_eq!(r.unwrap_err().message(), "source unavailable: stereo source ends mid-frame: x");
}

#[test]
fn cache_loads_each_name_once() {
    let mut cache = SampleCache::new();
    assert!(!cache.contains(&"kick".to_string()));
    cache.insert(canonicalize("kick".to_string(), vec![5, 6], 2).unwrap());
    assert!(cache.contains(&"kick".to_string()));
    let got = cache.lookup(&"kick".to_string()).unwrap();
    assert_eq!(got.data, vec![5, 6]);
    assert!(cache.lookup(&"snare".to_string()).is_none());
}

#[test]
fn missing_source_contributes_nothing() {
    let cache = SampleCache::new();
    let events = vec![Event { time_us: 0, volume: UNIT, pan: 0, name: "ghost".to_string() }];
    let t = build_timeline(&events).unwrap();
    let out = mix_all(&cache, &t);
    assert_eq!(out.len(), 0);
}

#[test]
fn pcm_full_scale_mapping() {
    let buf: Vec<i128> = vec![32768, -32768, 0, 16384, -16384];
    let pcm = to_pcm(&buf);
    assert_eq!(pcm, vec![32767i16, -32767, 0, 16384, -16384]);
}
