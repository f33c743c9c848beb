use avatar_anim::binary::is_encodable;
use avatar_anim::{Animation, JointData, PositionKey, RotationKey, END_OF_ANIMATION};

type Anim = Animation<u8, u8>;

fn joint(name: &str, rots: &[u16], poss: &[u16]) -> JointData<u8, u8> {
    JointData {
        name: name.to_string(),
        priority: 2,
        rotation_keys: rots.iter().map(|t| RotationKey { time: *t, rot: 1 }).collect(),
        position_keys: poss.iter().map(|t| PositionKey { time: *t, pos: 2 }).collect(),
    }
}

fn sample() -> Anim {
    let mut a = Animation::new();
    a.joints.push(joint("a", &[1, 2], &[3]));
    a.joints.push(joint("b", &[], &[]));
    a.joints.push(joint("c", &[], &[4]));
    a.joints.push(joint("a", &[5], &[]));
    a
}

#[test]
fn set_priority_reaches_the_header_and_every_joint() {
    let mut a = sample();
    a.set_priority(7);
    assert_eq!(a.header.base_priority, 7);
    assert!(a.joints.iter().all(|j| j.priority == 7));
    a.set_priority(-3).set_priority(99);
    assert_eq!(a.header.base_priority, 99);
    assert!(a.joints.iter().all(|j| j.priority == 99));
    let mut expected = sample();
    expected.header.base_priority = 99;
    for j in expected.joints.iter_mut() {
        j.priority = 99;
    }
    assert_eq!(a, expected);
}

#[test]
fn set_joint_priority_leaves_the_header_alone() {
    let mut a = sample();
    a.set_joint_priority(1);
    assert_eq!(a.header.base_priority, 6);
    assert!(a.joints.iter().all(|j| j.priority == 1));
    assert_eq!(a.joints[0].rotation_keys, sample().joints[0].rotation_keys);
}

#[test]
fn drop_keys_clears_one_channel_everywhere() {
    let mut a = sample();
    a.drop_position_keys();
    assert!(a.joints.iter().all(|j| j.position_keys.is_empty()));
    assert_eq!(a.joints[0].rotation_keys.len(), 2);
    assert_eq!(a.joints[3].rotation_keys.len(), 1);
    let mut a = sample();
    a.drop_rotation_keys();
    assert!(a.joints.iter().all(|j| j.rotation_keys.is_empty()));
    assert_eq!(a.joints[0].position_keys.len(), 1);
    assert_eq!(a.joints[2].position_keys.len(), 1);
    a.drop_position_keys().drop_rotation_keys();
    assert!(a.joints.iter().all(|j| j.position_keys.is_empty()));
    assert_eq!(a.joints.len(), 4);
}

#[test]
fn drop_by_choice_clears_every_joint_that_is_chosen() {
    let mut a = sample();
    a.drop_rotation(|j: &JointData<u8, u8>| j.name == "a");
    assert!(a.joints[0].rotation_keys.is_empty());
    assert!(a.joints[3].rotation_keys.is_empty());
    assert_eq!(a.joints[0].position_keys.len(), 1);
    let mut a = sample();
    a.drop_position(|j: &JointData<u8, u8>| j.name != "a");
    assert_eq!(a.joints[0].position_keys.len(), 1);
    assert!(a.joints[2].position_keys.is_empty());
    assert_eq!(a.joints[0].rotation_keys.len(), 2);
    let mut a = sample();
    a.drop_position(|_: &JointData<u8, u8>| false)
        .drop_rotation(|_: &JointData<u8, u8>| false);
    assert_eq!(a, sample());
}

#[test]
fn drop_empty_joints_keeps_the_others_in_order() {
    let mut a = sample();
    a.drop_empty_joints();
    assert_eq!(a.joints.len(), 3);
    assert_eq!(a.joints[0], joint("a", &[1, 2], &[3]));
    assert_eq!(a.joints[1], joint("c", &[], &[4]));
    assert_eq!(a.joints[2], joint("a", &[5], &[]));
    a.drop_rotation_keys().drop_position_keys().drop_empty_joints();
    assert!(a.joints.is_empty());
    assert_eq!(a.header, sample().header);
}

#[test]
fn a_joint_is_found_by_its_name_the_first_of_them() {
    let mut a = sample();
    assert_eq!(a.joint("a"), Some(&joint("a", &[1, 2], &[3])));
    assert_eq!(a.joint("c"), Some(&joint("c", &[], &[4])));
    assert_eq!(a.joint("d"), None);
    assert_eq!(a.joint(""), None);
    assert_eq!(a.joint_index("a"), Some(0));
    assert_eq!(a.joint_index("c"), Some(2));
    assert_eq!(a.joint_index("A"), None);
    a.joint_mut("a").unwrap().priority = 5;
    assert_eq!(a.joints[0].priority, 5);
    assert_eq!(a.joints[3].priority, 2);
    assert!(a.joint_mut("zz").is_none());
}

#[test]
fn ensure_joint_finds_or_adds() {
    let mut a = sample();
    assert_eq!(a.ensure_joint("c"), 2);
    assert_eq!(a, sample());
    assert_eq!(a.ensure_joint("new"), 4);
    assert_eq!(a.joints.len(), 5);
    assert_eq!(
        a.joints[4],
        JointData {
            name: "new".to_string(),
            ..JointData::default()
        }
    );
}

#[test]
fn a_key_is_appended_to_the_first_joint_of_the_name() {
    let mut a = sample();
    a.insert_rotation_key("a", Some(9), 8);
    a.insert_position_key("a", None, 7);
    assert_eq!(
        a.joints[0].rotation_keys.last(),
        Some(&RotationKey { time: 9, rot: 8 })
    );
    assert_eq!(a.joints[0].rotation_keys.len(), 3);
    assert_eq!(
        a.joints[0].position_keys.last(),
        Some(&PositionKey {
            time: END_OF_ANIMATION,
            pos: 7
        })
    );
    assert_eq!(a.joints[3], joint("a", &[5], &[]));
    a.insert_position_key("z", Some(0), 1);
    a.insert_rotation_key("z", None, 2);
    assert_eq!(a.joints.len(), 5);
    assert_eq!(a.joints[4].name, "z");
    assert_eq!(a.joints[4].priority, 0);
    assert_eq!(a.joints[4].position_keys, vec![PositionKey { time: 0, pos: 1 }]);
    assert_eq!(
        a.joints[4].rotation_keys,
        vec![RotationKey {
            time: 65535,
            rot: 2
        }]
    );
}

#[test]
fn keys_made_from_a_value_stand_at_time_zero() {
    assert_eq!(RotationKey::from(5u8), RotationKey { time: 0, rot: 5 });
    assert_eq!(PositionKey::from(6u8), PositionKey { time: 0, pos: 6 });
    let rot: RotationKey<(u8, u8)> = (1, 2).into();
    assert_eq!(rot, RotationKey { time: 0, rot: (1, 2) });
    let pos: PositionKey<[u8; 2]> = [3, 4].into();
    assert_eq!(pos, PositionKey { time: 0, pos: [3, 4] });
}

#[test]
fn convert_keeps_times_names_and_order() {
    let a = sample();
    let b = a.convert(|r: u8| r as u32 * 10, |p: u8| (p, p));
    assert_eq!(b.joints.len(), 4);
    assert_eq!(b.joints[0].name, "a");
    assert_eq!(b.joints[0].priority, 2);
    assert_eq!(
        b.joints[0].rotation_keys,
        vec![
            RotationKey { time: 1, rot: 10 },
            RotationKey { time: 2, rot: 10 }
        ]
    );
    assert_eq!(
        b.joints[2].position_keys,
        vec![PositionKey {
            time: 4,
            pos: (2, 2)
        }]
    );
    assert_eq!(b.header, sample().header);
}

#[test]
fn ordinary_animations_are_encodable() {
    assert!(is_encodable(&sample()));
}
