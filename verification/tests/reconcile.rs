use avatar_anim::reconcile::{average, keep_first, keep_last};
use avatar_anim::{Animation, Blend, DuplicateKeyStrategy, JointData, PositionKey, RotationKey};

fn key(time: u16, rot: u32) -> RotationKey<u32> {
    RotationKey { time, rot }
}

type Steps = Blend<fn(u32) -> u32, fn(u32, u32, usize) -> u32, fn(u32, usize) -> u32>;

fn sum() -> Steps {
    Blend {
        start: |first| first,
        toward: |acc, next, _| acc + next,
        finish: |acc, _| acc,
    }
}

fn join() -> Steps {
    Blend {
        start: |first| first,
        toward: |acc, next, _| acc * 10 + next,
        finish: |acc, _| acc,
    }
}

fn only() -> Steps {
    Blend {
        start: |first| first,
        toward: |acc, next, _| acc + next,
        finish: |acc, count| acc / count as u32,
    }
}

fn counted() -> Steps {
    Blend {
        start: |first| first,
        toward: |acc, next, count| acc * 100 + next * 10 + count as u32,
        finish: |acc, count| acc * 10 + count as u32,
    }
}

fn hashed() -> Steps {
    Blend {
        start: |first| 7u32.wrapping_mul(31).wrapping_add(first),
        toward: |acc, next, _| acc.wrapping_mul(31).wrapping_add(next),
        finish: |acc, _| acc,
    }
}

#[test]
fn keep_first_sorts_and_takes_the_earliest_of_each_time() {
    let keys = vec![key(9, 1), key(2, 2), key(9, 3), key(2, 4), key(5, 5)];
    assert_eq!(keep_first(&keys), vec![key(2, 2), key(5, 5), key(9, 1)]);
}

#[test]
fn keep_last_sorts_and_takes_the_latest_of_each_time() {
    let keys = vec![key(9, 1), key(2, 2), key(9, 3), key(2, 4), key(5, 5)];
    assert_eq!(keep_last(&keys), vec![key(2, 4), key(5, 5), key(9, 3)]);
}

#[test]
fn average_hands_each_run_over_in_the_order_of_its_keys() {
    let keys = vec![key(9, 1), key(2, 2), key(9, 3), key(2, 4), key(5, 5), key(9, 7)];
    assert_eq!(average(&keys, &join()), vec![key(2, 24), key(5, 5), key(9, 137)]);
    assert_eq!(
        average(&keys, &counted()),
        vec![key(2, 2412), key(5, 51), key(9, 131723)]
    );
    assert_eq!(average(&keys, &sum()), vec![key(2, 6), key(5, 5), key(9, 11)]);
}

#[test]
fn nothing_in_nothing_out() {
    let keys: Vec<RotationKey<u32>> = Vec::new();
    assert!(keep_first(&keys).is_empty());
    assert!(keep_last(&keys).is_empty());
    assert!(average(&keys, &sum()).is_empty());
}

#[test]
fn the_end_of_animation_stamp_and_zero_are_ordinary_times() {
    let keys = vec![key(65535, 1), key(0, 2), key(65535, 3), key(0, 4)];
    assert_eq!(keep_first(&keys), vec![key(0, 2), key(65535, 1)]);
    assert_eq!(keep_last(&keys), vec![key(0, 4), key(65535, 3)]);
}

#[test]
fn every_strategy_leaves_strictly_ascending_times() {
    let keys = vec![key(4, 1), key(4, 2), key(1, 3), key(3, 4), key(1, 5), key(4, 6)];
    for out in [keep_first(&keys), keep_last(&keys), average(&keys, &sum())] {
        assert_eq!(out.len(), 3);
        for pair in out.windows(2) {
            assert!(pair[0].time < pair[1].time);
        }
    }
}

#[test]
fn a_second_pass_changes_nothing() {
    let keys = vec![key(4, 1), key(4, 2), key(1, 3), key(3, 4), key(1, 5), key(4, 6)];
    let once = keep_first(&keys);
    assert_eq!(keep_first(&once), once);
    let once = keep_last(&keys);
    assert_eq!(keep_last(&once), once);
    let once = average(&keys, &only());
    assert_eq!(average(&once, &only()), once);
}

#[test]
fn a_reconciled_channel_is_kept_by_every_strategy() {
    let keys = vec![key(1, 10), key(2, 20), key(7, 70)];
    assert_eq!(keep_first(&keys), keys);
    assert_eq!(keep_last(&keys), keys);
    assert_eq!(average(&keys, &only()), keys);
}

#[test]
fn cleanup_keys_keeps_the_latest_on_both_channels_of_every_joint() {
    let mut anim: Animation<u32, u32> = Animation::default();
    anim.joints.push(JointData {
        name: "A".into(),
        priority: 3,
        rotation_keys: vec![key(8, 1), key(8, 2), key(1, 3)],
        position_keys: vec![
            PositionKey { time: 6, pos: 1 },
            PositionKey { time: 6, pos: 2 },
        ],
    });
    anim.joints.push(JointData {
        name: "B".into(),
        priority: 4,
        rotation_keys: Vec::new(),
        position_keys: vec![PositionKey { time: 2, pos: 9 }],
    });
    anim.cleanup_keys();
    assert_eq!(anim.joints[0].name, "A");
    assert_eq!(anim.joints[0].priority, 3);
    assert_eq!(anim.joints[0].rotation_keys, vec![key(1, 3), key(8, 2)]);
    assert_eq!(
        anim.joints[0].position_keys,
        vec![PositionKey { time: 6, pos: 2 }]
    );
    assert_eq!(anim.joints[1].priority, 4);
    assert!(anim.joints[1].rotation_keys.is_empty());
    assert_eq!(
        anim.joints[1].position_keys,
        vec![PositionKey { time: 2, pos: 9 }]
    );
}

#[test]
fn cleanup_keys_with_follows_the_strategy() {
    let joint = JointData {
        name: "A".to_string(),
        priority: 1,
        rotation_keys: vec![key(8, 1), key(8, 2), key(1, 3)],
        position_keys: vec![
            PositionKey { time: 6, pos: 4 },
            PositionKey { time: 6, pos: 8 },
        ],
    };
    let mut first: Animation<u32, u32> = Animation::default();
    first.joints.push(joint.clone());
    let mut last = first.clone();
    let mut mean = first.clone();
    first.cleanup_keys_with(DuplicateKeyStrategy::KeepFirst, &sum(), &sum());
    last.cleanup_keys_with(DuplicateKeyStrategy::KeepLast, &sum(), &sum());
    mean.cleanup_keys_with(DuplicateKeyStrategy::Average, &sum(), &only());
    assert_eq!(first.joints[0].rotation_keys, vec![key(1, 3), key(8, 1)]);
    assert_eq!(last.joints[0].rotation_keys, vec![key(1, 3), key(8, 2)]);
    assert_eq!(mean.joints[0].rotation_keys, vec![key(1, 3), key(8, 3)]);
    assert_eq!(
        first.joints[0].position_keys,
        vec![PositionKey { time: 6, pos: 4 }]
    );
    assert_eq!(
        last.joints[0].position_keys,
        vec![PositionKey { time: 6, pos: 8 }]
    );
    assert_eq!(
        mean.joints[0].position_keys,
        vec![PositionKey { time: 6, pos: 6 }]
    );
}

fn scrambled(n: usize, times: u16) -> Vec<RotationKey<u32>> {
    let mut state: u32 = 12345;
    let mut keys = Vec::new();
    for i in 0..n {
        state = state.wrapping_mul(1664525).wrapping_add(1013904223);
        keys.push(key((state >> 16) as u16 % times, i as u32));
    }
    keys
}

#[test]
fn many_keys_agree_with_a_plain_reckoning() {
    for (n, times) in [(1usize, 1u16), (2, 1), (3, 2), (100, 7), (1000, 50), (5000, 65535)] {
        let keys = scrambled(n, times);
        let mut stamps: Vec<u16> = keys.iter().map(|k| k.time).collect();
        stamps.sort();
        stamps.dedup();
        let first: Vec<RotationKey<u32>> = stamps
            .iter()
            .map(|t| *keys.iter().find(|k| k.time == *t).unwrap())
            .collect();
        let last: Vec<RotationKey<u32>> = stamps
            .iter()
            .map(|t| *keys.iter().rev().find(|k| k.time == *t).unwrap())
            .collect();
        let joined: Vec<RotationKey<u32>> = stamps
            .iter()
            .map(|t| {
                let run: Vec<u32> = keys.iter().filter(|k| k.time == *t).map(|k| k.rot).collect();
                key(*t, run.iter().fold(7u32, |acc, v| acc.wrapping_mul(31).wrapping_add(*v)))
            })
            .collect();
        assert_eq!(keep_first(&keys), first);
        assert_eq!(keep_last(&keys), last);
        assert_eq!(average(&keys, &hashed()), joined);
    }
}

#[test]
fn keys_in_descending_order_are_turned_round() {
    let keys: Vec<RotationKey<u32>> = (0..2000u32).rev().map(|t| key(t as u16, t)).collect();
    let sorted: Vec<RotationKey<u32>> = (0..2000u32).map(|t| key(t as u16, t)).collect();
    assert_eq!(keep_first(&keys), sorted);
    assert_eq!(keep_last(&keys), sorted);
    assert_eq!(average(&keys, &only()), sorted);
}

#[test]
fn a_blend_that_changes_a_single_value_is_not_idempotent() {
    let grows: Steps = Blend {
        start: |first| first,
        toward: |acc, next, _| acc + next,
        finish: |acc, _| acc + 1,
    };
    let keys = vec![key(1, 0)];
    let once = average(&keys, &grows);
    assert_eq!(once, vec![key(1, 1)]);
    assert_eq!(average(&once, &grows), vec![key(1, 2)]);
}
