use avatar_anim::io::{read_pos_vec3, read_rot_quat, write_pos_vec3, write_rot_quat};
use avatar_anim::{
    Animation, Blend, DuplicateKeyStrategy, JointData, PositionKey, Quantized, RotationKey,
};
use glam::{Quat, Vec3};

const OOU16MAX: f32 = 1.0f32 / u16::MAX as f32;

fn f32_to_u16(value: f32, lower: f32, upper: f32) -> u16 {
    let mut val = value.min(upper).max(lower);
    val -= lower;
    val /= upper - lower;
    (val * u16::MAX as f32).floor() as u16
}

fn u16_to_f32(value: u16, lower: f32, upper: f32) -> f32 {
    let mut val = value as f32 * OOU16MAX;
    let delta = upper - lower;
    val *= delta;
    val += lower;
    let max_error = delta * OOU16MAX;
    if val.abs() < max_error {
        val = 0.0;
    }
    val
}

fn quantize_rotation(q: Quat) -> Quantized {
    let mut qn = if q.length_squared() > 0.0 {
        q.normalize()
    } else {
        q
    };
    if qn.w < 0.0 {
        qn = Quat::from_xyzw(-qn.x, -qn.y, -qn.z, -qn.w);
    }
    Quantized {
        x: f32_to_u16(qn.x, -1.0, 1.0),
        y: f32_to_u16(qn.y, -1.0, 1.0),
        z: f32_to_u16(qn.z, -1.0, 1.0),
    }
}

fn restore_rotation(c: Quantized) -> Quat {
    let x = u16_to_f32(c.x, -1.0, 1.0);
    let y = u16_to_f32(c.y, -1.0, 1.0);
    let z = u16_to_f32(c.z, -1.0, 1.0);
    let sum = x * x + y * y + z * z;
    let w = if sum <= 1.0 { (1.0 - sum).sqrt() } else { 0.0 };
    let mut q = Quat::from_xyzw(x, y, z, w);
    if q.length_squared() > 0.0 {
        q = q.normalize();
    }
    if q.w < 0.0 {
        q = Quat::from_xyzw(-q.x, -q.y, -q.z, -q.w);
    }
    q
}

fn quantize_position(v: Vec3) -> Quantized {
    Quantized {
        x: f32_to_u16(v.x, -5.0, 5.0),
        y: f32_to_u16(v.y, -5.0, 5.0),
        z: f32_to_u16(v.z, -5.0, 5.0),
    }
}

fn restore_position(c: Quantized) -> Vec3 {
    Vec3::new(
        u16_to_f32(c.x, -5.0, 5.0),
        u16_to_f32(c.y, -5.0, 5.0),
        u16_to_f32(c.z, -5.0, 5.0),
    )
}

fn blend_rot() -> Blend<
    impl Fn(Quat) -> Quat,
    impl Fn(Quat, Quat, usize) -> Quat,
    impl Fn(Quat, usize) -> Quat,
> {
    Blend {
        start: |first: Quat| first,
        toward: |acc: Quat, next: Quat, count: usize| acc.slerp(next, 1.0 / (count as f32 + 1.0)),
        finish: |acc: Quat, _: usize| acc.normalize(),
    }
}

fn blend_pos() -> Blend<
    impl Fn(Vec3) -> Vec3,
    impl Fn(Vec3, Vec3, usize) -> Vec3,
    impl Fn(Vec3, usize) -> Vec3,
> {
    Blend {
        start: |first: Vec3| Vec3::ZERO + first,
        toward: |acc: Vec3, next: Vec3, _: usize| acc + next,
        finish: |acc: Vec3, count: usize| acc / count as f32,
    }
}

#[test]
fn quaternion_roundtrip() {
    let quats = [
        Quat::IDENTITY,
        Quat::from_rotation_x(0.3),
        Quat::from_rotation_y(-0.7),
        Quat::from_rotation_z(1.1),
        Quat::from_euler(glam::EulerRot::XYZ, 0.5, -1.0, 0.25),
    ];
    for q in quats {
        let mut buf: Vec<u8> = Vec::new();
        write_rot_quat(&quantize_rotation(q), &mut buf);
        let (codes, next) = read_rot_quat(&buf, 0).unwrap();
        assert_eq!(next, 6);
        let qr = restore_rotation(codes);
        let dot = q.normalize().dot(qr);
        assert!(
            dot.abs() > 0.999,
            "Quaternion roundtrip accuracy too low: {} vs {} (dot={})",
            q,
            qr,
            dot
        );
    }
}

#[test]
fn position_roundtrip_quant_error_bound() {
    let v = Vec3::new(1.2345, -2.2222, 4.9999_f32.min(4.9999));
    let mut buf: Vec<u8> = Vec::new();
    write_pos_vec3(&quantize_position(v), &mut buf);
    let (codes, next) = read_pos_vec3(&buf, 0).unwrap();
    assert_eq!(next, 6);
    let vr = restore_position(codes);
    let err = (v - vr).length();
    assert!(
        err < 5e-4,
        "Position quantization error too large: {} vs {} (err={})",
        v,
        vr,
        err
    );
}

#[test]
fn duplicate_key_strategy_average() {
    let mut anim = Animation::default();
    anim.joints.push(JointData {
        name: "Spine".into(),
        priority: 6,
        rotation_keys: vec![
            RotationKey {
                time: 10,
                rot: Quat::from_rotation_x(0.2),
            },
            RotationKey {
                time: 10,
                rot: Quat::from_rotation_x(0.4),
            },
        ],
        position_keys: vec![
            PositionKey {
                time: 10,
                pos: Vec3::new(1.0, 0.0, 0.0),
            },
            PositionKey {
                time: 10,
                pos: Vec3::new(3.0, 0.0, 0.0),
            },
        ],
    });
    anim.cleanup_keys_with(DuplicateKeyStrategy::Average, &blend_rot(), &blend_pos());
    let joint = anim.joint("Spine").unwrap();
    assert_eq!(joint.rotation_keys.len(), 1);
    assert_eq!(joint.position_keys.len(), 1);
    assert!((joint.position_keys[0].pos.x - 2.0).abs() < 1e-6);
}

#[test]
fn duplicate_key_strategy_keep_last() {
    let mut anim = Animation::default();
    anim.joints.push(JointData {
        name: "Head".into(),
        priority: 6,
        rotation_keys: vec![
            RotationKey {
                time: 5,
                rot: Quat::from_rotation_y(0.1),
            },
            RotationKey {
                time: 5,
                rot: Quat::from_rotation_y(0.5),
            },
        ],
        position_keys: Vec::<PositionKey<Vec3>>::new(),
    });
    anim.cleanup_keys_with(DuplicateKeyStrategy::KeepLast, &blend_rot(), &blend_pos());
    let joint = anim.joint("Head").unwrap();
    assert_eq!(joint.rotation_keys.len(), 1);
    let expected = Quat::from_rotation_y(0.5).normalize();
    let dot = expected.dot(joint.rotation_keys[0].rot);
    assert!(dot > 0.999, "Last key not preserved as expected");
}

#[test]
fn keep_first_retains_the_earlier_key() {
    let mut anim = Animation::default();
    anim.joints.push(JointData {
        name: "Head".into(),
        priority: 6,
        rotation_keys: vec![
            RotationKey {
                time: 5,
                rot: Quat::from_rotation_y(0.1),
            },
            RotationKey {
                time: 5,
                rot: Quat::from_rotation_y(0.5),
            },
        ],
        position_keys: Vec::<PositionKey<Vec3>>::new(),
    });
    anim.cleanup_keys_with(DuplicateKeyStrategy::KeepFirst, &blend_rot(), &blend_pos());
    let joint = anim.joint("Head").unwrap();
    assert_eq!(joint.rotation_keys.len(), 1);
    assert_eq!(joint.rotation_keys[0].time, 5);
    assert_eq!(joint.rotation_keys[0].rot, Quat::from_rotation_y(0.1));
}

#[test]
fn average_rotation_is_the_halfway_interpolation() {
    let a = Quat::from_rotation_x(0.2);
    let b = Quat::from_rotation_x(0.4);
    let keys = vec![
        RotationKey { time: 7, rot: a },
        RotationKey { time: 7, rot: b },
    ];
    let out = avatar_anim::reconcile::average(&keys, &blend_rot());
    assert_eq!(out.len(), 1);
    assert_eq!(out[0].time, 7);
    let halfway = a.slerp(b, 0.5);
    assert!(halfway.dot(out[0].rot) > 0.999);
}

#[test]
fn average_position_is_the_mean() {
    let keys = vec![
        PositionKey {
            time: 3,
            pos: Vec3::new(1.0, 0.0, 0.0),
        },
        PositionKey {
            time: 3,
            pos: Vec3::new(3.0, 0.0, 0.0),
        },
    ];
    let out = avatar_anim::reconcile::average(&keys, &blend_pos());
    assert_eq!(out.len(), 1);
    assert_eq!(out[0].time, 3);
    assert!((out[0].pos - Vec3::new(2.0, 0.0, 0.0)).length() < 1e-6);
}

#[test]
fn end_to_end_average_on_spine() {
    let mut anim: Animation<Quat, Vec3> = Animation::new();
    anim.insert_rotation_key("Spine", Some(10), Quat::from_rotation_z(0.2));
    anim.insert_rotation_key("Spine", Some(10), Quat::from_rotation_z(0.4));
    anim.insert_position_key("Spine", Some(10), Vec3::new(1.0, 0.0, 0.0));
    anim.insert_position_key("Spine", Some(10), Vec3::new(3.0, 0.0, 0.0));
    assert_eq!(anim.joints.len(), 1);
    anim.cleanup_keys_with(DuplicateKeyStrategy::Average, &blend_rot(), &blend_pos());
    let joint = anim.joint("Spine").unwrap();
    assert_eq!(joint.rotation_keys.len(), 1);
    assert_eq!(joint.position_keys.len(), 1);
    assert_eq!(joint.rotation_keys[0].time, 10);
    assert_eq!(joint.position_keys[0].time, 10);
    assert!((joint.position_keys[0].pos - Vec3::new(2.0, 0.0, 0.0)).length() < 1e-6);
    let halfway = Quat::from_rotation_z(0.2).slerp(Quat::from_rotation_z(0.4), 0.5);
    assert!(halfway.dot(joint.rotation_keys[0].rot) > 0.999);
}

#[test]
fn stored_animation_converts_to_real_values_and_back() {
    let mut real: Animation<Quat, Vec3> = Animation::new();
    real.insert_rotation_key("Neck", Some(4), Quat::from_rotation_y(-0.7));
    real.insert_position_key("Neck", None, Vec3::new(1.2345, -2.2222, 4.9999));
    let stored = real.clone().convert(quantize_rotation, quantize_position);
    let bytes = stored.to_bytes().unwrap();
    let read = Animation::from_bytes(&bytes).unwrap();
    assert_eq!(read, stored);
    let back = read.convert(restore_rotation, restore_position);
    let joint = back.joint("Neck").unwrap();
    assert_eq!(joint.rotation_keys[0].time, 4);
    assert_eq!(joint.position_keys[0].time, 65535);
    assert!(Quat::from_rotation_y(-0.7).dot(joint.rotation_keys[0].rot).abs() > 0.999);
    assert!((joint.position_keys[0].pos - Vec3::new(1.2345, -2.2222, 4.9999)).length() < 5e-4);
}

#[test]
fn three_rotations_are_blended_step_by_step_in_their_order() {
    let a = Quat::from_rotation_x(0.1);
    let b = Quat::from_rotation_y(0.9);
    let c = Quat::from_rotation_z(-0.4);
    let keys = vec![
        RotationKey { time: 1, rot: a },
        RotationKey { time: 1, rot: b },
        RotationKey { time: 1, rot: c },
    ];
    let out = avatar_anim::reconcile::average(&keys, &blend_rot());
    assert_eq!(out.len(), 1);
    let expected = a.slerp(b, 1.0 / 2.0).slerp(c, 1.0 / 3.0).normalize();
    assert_eq!(out[0].rot, expected);
    let turned = vec![keys[2], keys[1], keys[0]];
    let other = avatar_anim::reconcile::average(&turned, &blend_rot());
    assert_eq!(other[0].rot, c.slerp(b, 1.0 / 2.0).slerp(a, 1.0 / 3.0).normalize());
}

#[test]
fn three_positions_are_blended_to_their_mean() {
    let keys = vec![
        PositionKey { time: 1, pos: Vec3::new(1.0, 2.0, 3.0) },
        PositionKey { time: 1, pos: Vec3::new(2.0, 2.0, -3.0) },
        PositionKey { time: 1, pos: Vec3::new(6.0, -1.0, 0.0) },
    ];
    let out = avatar_anim::reconcile::average(&keys, &blend_pos());
    assert_eq!(out.len(), 1);
    assert_eq!(out[0].pos, Vec3::new(3.0, 1.0, 0.0));
}

#[test]
fn averaging_twice_is_averaging_once() {
    let mut anim: Animation<Quat, Vec3> = Animation::new();
    for (time, angle) in [(10u16, 0.2f32), (10, 0.4), (3, -1.0), (10, 0.9), (3, 0.5)] {
        anim.insert_rotation_key("Spine", Some(time), Quat::from_rotation_x(angle));
        anim.insert_position_key("Spine", Some(time), Vec3::new(angle, 1.0, -angle));
    }
    anim.cleanup_keys_with(DuplicateKeyStrategy::Average, &blend_rot(), &blend_pos());
    let once = anim.clone();
    anim.cleanup_keys_with(DuplicateKeyStrategy::Average, &blend_rot(), &blend_pos());
    let a = &once.joints[0];
    let b = &anim.joints[0];
    assert_eq!(a.rotation_keys.len(), 2);
    assert_eq!(b.rotation_keys.len(), 2);
    for (x, y) in a.rotation_keys.iter().zip(b.rotation_keys.iter()) {
        assert_eq!(x.time, y.time);
        assert!(x.rot.dot(y.rot) > 0.999999);
    }
    for (x, y) in a.position_keys.iter().zip(b.position_keys.iter()) {
        assert_eq!(x.time, y.time);
        assert!((x.pos - y.pos).length() < 1e-6);
    }
    for strategy in [DuplicateKeyStrategy::KeepFirst, DuplicateKeyStrategy::KeepLast] {
        let mut again = once.clone();
        again.cleanup_keys_with(strategy, &blend_rot(), &blend_pos());
        assert_eq!(again, once);
    }
}
