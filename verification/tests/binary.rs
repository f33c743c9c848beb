use avatar_anim::binary::{
    read_constraint, read_header, read_joint, read_keys, write_constraint, write_header,
    write_joint, write_keys, StoredAnimation,
};
use avatar_anim::io::{
    read_fixed_length_string, read_i32, read_null_terminated_string, read_u16, read_u32, read_u8,
    write_fixed_length_string, write_i32, write_null_terminated_string, write_u16, write_u32,
    write_u8, Args,
};
use avatar_anim::{
    AnimError, Animation, AnimationHeader, BinaryFault, Constraint, JointData, Offset,
    PositionKey, Quantized, RotationKey, Scalar,
};

fn codes(x: u16, y: u16, z: u16) -> Quantized {
    Quantized { x, y, z }
}

fn sample() -> StoredAnimation {
    let mut a = Animation::default();
    a.header.emote_name = "wave".to_string();
    a.header.hand_pose = 2;
    a.joints.push(JointData {
        name: "mPelvis".to_string(),
        priority: -1,
        rotation_keys: vec![
            RotationKey {
                time: 0,
                rot: codes(32767, 1, 65535),
            },
            RotationKey {
                time: 65535,
                rot: codes(0x1234, 0xabcd, 7),
            },
        ],
        position_keys: vec![PositionKey {
            time: 258,
            pos: codes(3, 2, 1),
        }],
    });
    a.joints.push(JointData {
        name: "mHead".to_string(),
        priority: 4,
        rotation_keys: Vec::new(),
        position_keys: Vec::new(),
    });
    a.constraints.push(Constraint {
        chain_length: 3,
        constraint_type: 1,
        source_volume: "L_HAND".to_string(),
        source_offset: Offset {
            x: Scalar::from_bits(1),
            y: Scalar::from_bits(2),
            z: Scalar::from_bits(3),
        },
        target_volume: "sixteen_bytes_ok".to_string(),
        target_offset: Offset::default(),
        target_dir: Offset {
            x: Scalar::one(),
            y: Scalar::zero(),
            z: Scalar::zero(),
        },
        ease_in_start: Scalar::from_bits(0x3e80_0000),
        ease_in_stop: Scalar::from_bits(0x3f00_0000),
        ease_out_start: Scalar::from_bits(0x3f40_0000),
        ease_out_stop: Scalar::one(),
    });
    a
}

#[test]
fn a_blank_header_has_the_stated_values() {
    let h = AnimationHeader::default();
    assert_eq!(h.version, 1);
    assert_eq!(h.sub_version, 0);
    assert_eq!(h.base_priority, 6);
    assert_eq!(f32::from_bits(h.duration.bits), 0.017);
    assert_eq!(h.emote_name, "");
    assert_eq!(f32::from_bits(h.loop_in_point.bits), 0.0);
    assert_eq!(f32::from_bits(h.loop_out_point.bits), 0.017);
    assert_eq!(h.looped, 1);
    assert_eq!(f32::from_bits(h.ease_in_duration.bits), 1.0);
    assert_eq!(f32::from_bits(h.ease_out_duration.bits), 1.0);
    assert_eq!(h.hand_pose, 0);
    let a: StoredAnimation = Animation::new();
    assert_eq!(a.header, h);
    assert!(a.joints.is_empty());
    assert!(a.constraints.is_empty());
}

#[test]
fn a_blank_animation_has_these_bytes() {
    let a: StoredAnimation = Animation::new();
    let bytes = a.to_bytes().unwrap();
    let expected: Vec<u8> = vec![
        1, 0, // version
        0, 0, // sub-version
        6, 0, 0, 0, // priority
        0x96, 0x43, 0x8b, 0x3c, // duration 0.017
        0,    // empty name
        0, 0, 0, 0, // loop in
        0x96, 0x43, 0x8b, 0x3c, // loop out
        1, 0, 0, 0, // looped
        0, 0, 0x80, 0x3f, // ease in
        0, 0, 0x80, 0x3f, // ease out
        0, 0, 0, 0, // hand pose
        0, 0, 0, 0, // joints
        0, 0, 0, 0, // constraints
    ];
    assert_eq!(bytes, expected);
}

#[test]
fn a_joint_has_these_bytes() {
    let a = sample();
    let mut out = vec![0xee];
    write_joint(&a.joints[0], &mut out);
    let expected: Vec<u8> = vec![
        0xee, b'm', b'P', b'e', b'l', b'v', b'i', b's', 0, // name
        0xff, 0xff, 0xff, 0xff, // priority -1
        2, 0, 0, 0, // rotation keys
        0, 0, 0xff, 0x7f, 1, 0, 0xff, 0xff, // key at 0
        0xff, 0xff, 0x34, 0x12, 0xcd, 0xab, 7, 0, // key at 65535
        1, 0, 0, 0, // position keys
        2, 1, 3, 0, 2, 0, 1, 0, // key at 258
    ];
    assert_eq!(out, expected);
    let (joint, next) = read_joint(&out, 1).unwrap();
    assert_eq!(joint, a.joints[0]);
    assert_eq!(next, out.len());
}

#[test]
fn a_constraint_has_these_bytes() {
    let a = sample();
    let mut out = Vec::new();
    write_constraint(&a.constraints[0], &mut out);
    assert_eq!(out.len(), 86);
    assert_eq!(&out[0..2], &[3, 1]);
    assert_eq!(&out[2..18], b"L_HAND\0\0\0\0\0\0\0\0\0\0");
    assert_eq!(&out[18..30], &[1, 0, 0, 0, 2, 0, 0, 0, 3, 0, 0, 0]);
    assert_eq!(&out[30..46], b"sixteen_bytes_ok");
    assert_eq!(&out[46..58], &[0; 12]);
    assert_eq!(&out[58..70], &[0, 0, 0x80, 0x3f, 0, 0, 0, 0, 0, 0, 0, 0]);
    assert_eq!(&out[70..74], &[0, 0, 0x80, 0x3e]);
    assert_eq!(&out[74..78], &[0, 0, 0, 0x3f]);
    assert_eq!(&out[78..82], &[0, 0, 0x40, 0x3f]);
    assert_eq!(&out[82..86], &[0, 0, 0x80, 0x3f]);
    let (c, next) = read_constraint(&out, 0).unwrap();
    assert_eq!(c, a.constraints[0]);
    assert_eq!(next, 86);
}

#[test]
fn an_animation_comes_back_from_its_bytes() {
    let a = sample();
    let bytes = a.to_bytes().unwrap();
    assert_eq!(Animation::from_bytes(&bytes).unwrap(), a);
}

#[test]
fn what_follows_an_animation_is_not_looked_at() {
    let a = sample();
    let mut bytes = a.to_bytes().unwrap();
    let len = bytes.len();
    bytes.extend_from_slice(&[0xff, 0xfe, 0xfd]);
    let (read, next) = avatar_anim::binary::read_animation(&bytes).unwrap();
    assert_eq!(read, a);
    assert_eq!(next, len);
}

#[test]
fn every_proper_prefix_is_truncated() {
    let bytes = sample().to_bytes().unwrap();
    for cut in 0..bytes.len() {
        assert_eq!(
            Animation::from_bytes(&bytes[..cut]),
            Err(AnimError::Binary(BinaryFault::Truncated)),
            "prefix of {} bytes",
            cut
        );
    }
}

#[test]
fn a_name_that_is_not_utf8_is_no_text() {
    let mut bytes = sample().to_bytes().unwrap();
    assert_eq!(&bytes[12..16], b"wave");
    bytes[13] = 0xff;
    assert_eq!(
        Animation::from_bytes(&bytes),
        Err(AnimError::Binary(BinaryFault::InvalidText { start: 12, end: 16 }))
    );
    assert_eq!(
        read_null_terminated_string(&[0xc3, 0x28, 0], 0),
        Err(BinaryFault::InvalidText { start: 0, end: 2 })
    );
    assert_eq!(
        read_null_terminated_string(&[b'a', 0, b'b', 0xff, b'c', 0, 0xff], 2),
        Err(BinaryFault::InvalidText { start: 2, end: 5 })
    );
}

#[test]
fn a_negative_count_is_out_of_range() {
    let a: StoredAnimation = Animation::new();
    let mut bytes = a.to_bytes().unwrap();
    let len = bytes.len();
    bytes[len - 1] = 0x80;
    assert_eq!(
        Animation::from_bytes(&bytes),
        Err(AnimError::Binary(BinaryFault::CountOutOfRange))
    );
    let keys: Result<(Vec<RotationKey<Quantized>>, usize), BinaryFault> =
        read_keys(&[0xff, 0xff, 0xff, 0xff, 1, 2, 3, 4, 5, 6, 7, 8], 0);
    assert_eq!(keys, Err(BinaryFault::CountOutOfRange));
}

#[test]
fn a_count_beyond_the_bytes_is_truncated() {
    let keys: Result<(Vec<PositionKey<Quantized>>, usize), BinaryFault> =
        read_keys(&[2, 0, 0, 0, 1, 2, 3, 4, 5, 6, 7, 8], 0);
    assert_eq!(keys, Err(BinaryFault::Truncated));
    let keys: Result<(Vec<PositionKey<Quantized>>, usize), BinaryFault> =
        read_keys(&[0xff, 0xff, 0xff, 0x7f], 0);
    assert_eq!(keys, Err(BinaryFault::Truncated));
}

#[test]
fn keys_are_read_and_written_in_order() {
    let keys = vec![
        RotationKey {
            time: 1,
            rot: codes(2, 3, 4),
        },
        RotationKey {
            time: 0x0102,
            rot: codes(0x0304, 0x0506, 0x0708),
        },
    ];
    let mut out = vec![2, 0, 0, 0];
    write_keys(&keys, &mut out);
    assert_eq!(
        out,
        vec![2, 0, 0, 0, 1, 0, 2, 0, 3, 0, 4, 0, 2, 1, 4, 3, 6, 5, 8, 7]
    );
    let read: (Vec<RotationKey<Quantized>>, usize) = read_keys(&out, 0).unwrap();
    assert_eq!(read, (keys, 20));
}

#[test]
fn a_header_is_read_where_it_stands() {
    let a = sample();
    let mut out = vec![9, 9, 9];
    write_header(&a.header, &mut out);
    assert_eq!(out.len(), 3 + 12 + 5 + 24);
    let (h, next) = read_header(&out, 3).unwrap();
    assert_eq!(h, a.header);
    assert_eq!(next, out.len());
    assert_eq!(read_header(&out[..out.len() - 1], 3), Err(BinaryFault::Truncated));
}

#[test]
fn numbers_are_little_endian() {
    let mut out = Vec::new();
    write_u8(&mut out, 0xab);
    write_u16(&mut out, 0x1234);
    write_u32(&mut out, 0xdead_beef);
    write_i32(&mut out, -2);
    write_i32(&mut out, i32::MIN);
    write_i32(&mut out, i32::MAX);
    assert_eq!(
        out,
        vec![
            0xab, 0x34, 0x12, 0xef, 0xbe, 0xad, 0xde, 0xfe, 0xff, 0xff, 0xff, 0, 0, 0, 0x80,
            0xff, 0xff, 0xff, 0x7f
        ]
    );
    assert_eq!(read_u8(&out, 0), Ok((0xab, 1)));
    assert_eq!(read_u16(&out, 1), Ok((0x1234, 3)));
    assert_eq!(read_u32(&out, 3), Ok((0xdead_beef, 7)));
    assert_eq!(read_i32(&out, 7), Ok((-2, 11)));
    assert_eq!(read_i32(&out, 11), Ok((i32::MIN, 15)));
    assert_eq!(read_i32(&out, 15), Ok((i32::MAX, 19)));
    assert_eq!(read_u8(&out, 19), Err(BinaryFault::Truncated));
    assert_eq!(read_u16(&out, 18), Err(BinaryFault::Truncated));
    assert_eq!(read_u32(&out, 16), Err(BinaryFault::Truncated));
    assert_eq!(read_i32(&out, usize::MAX), Err(BinaryFault::Truncated));
}

#[test]
fn null_terminated_text() {
    let mut out = vec![1];
    write_null_terminated_string(&"Spine".to_string(), &mut out);
    write_null_terminated_string(&"\u{e9}t\u{e9}".to_string(), &mut out);
    write_null_terminated_string(&String::new(), &mut out);
    assert_eq!(
        out,
        vec![1, b'S', b'p', b'i', b'n', b'e', 0, 0xc3, 0xa9, b't', 0xc3, 0xa9, 0, 0]
    );
    assert_eq!(
        read_null_terminated_string(&out, 1),
        Ok(("Spine".to_string(), 7))
    );
    assert_eq!(
        read_null_terminated_string(&out, 7),
        Ok(("\u{e9}t\u{e9}".to_string(), 13))
    );
    assert_eq!(read_null_terminated_string(&out, 13), Ok((String::new(), 14)));
    assert_eq!(
        read_null_terminated_string(&out, 14),
        Err(BinaryFault::Truncated)
    );
    assert_eq!(
        read_null_terminated_string(b"no end", 0),
        Err(BinaryFault::Truncated)
    );
    assert_eq!(
        read_null_terminated_string(&out, 99),
        Err(BinaryFault::Truncated)
    );
}

#[test]
fn fixed_width_text_is_cut_or_filled() {
    let width = Args { count: 4 };
    let mut out = Vec::new();
    write_fixed_length_string(&"ab".to_string(), &mut out, width);
    write_fixed_length_string(&"abcdef".to_string(), &mut out, width);
    write_fixed_length_string(&String::new(), &mut out, width);
    assert_eq!(out, b"ab\0\0abcd\0\0\0\0".to_vec());
    assert_eq!(
        read_fixed_length_string(&out, 0, width),
        Ok(("ab".to_string(), 4))
    );
    assert_eq!(
        read_fixed_length_string(&out, 4, width),
        Ok(("abcd".to_string(), 8))
    );
    assert_eq!(read_fixed_length_string(&out, 8, width), Ok((String::new(), 12)));
    assert_eq!(
        read_fixed_length_string(&out, 9, width),
        Err(BinaryFault::Truncated)
    );
    assert_eq!(
        read_fixed_length_string(&out, 12, Args { count: 0 }),
        Ok((String::new(), 12))
    );
}

#[test]
fn fixed_width_text_that_is_not_utf8_reads_as_empty() {
    assert_eq!(
        read_fixed_length_string(&[0xff, b'a', 0, 0], 0, Args { count: 4 }),
        Ok((String::new(), 4))
    );
    assert_eq!(
        read_fixed_length_string(&[b'a', 0, 0xff, b'b'], 0, Args { count: 4 }),
        Ok(("a".to_string(), 4))
    );
    let mut out = Vec::new();
    write_fixed_length_string(&"a\u{e9}".to_string(), &mut out, Args { count: 2 });
    assert_eq!(out, vec![b'a', 0xc3]);
    assert_eq!(
        read_fixed_length_string(&out, 0, Args { count: 2 }),
        Ok((String::new(), 2))
    );
}

#[test]
fn the_message_says_what_went_wrong() {
    assert_eq!(
        AnimError::Binary(BinaryFault::Truncated).message(),
        "Binary parsing error: unexpected end of data"
    );
    assert_eq!(
        AnimError::Binary(BinaryFault::InvalidText { start: 3, end: 9 }).message(),
        "Binary parsing error: invalid UTF-8 in null-terminated string"
    );
    assert_eq!(
        AnimError::Binary(BinaryFault::CountOutOfRange).message(),
        "Binary parsing error: count out of range"
    );
    assert_eq!(
        AnimError::InvalidStructure("LLSD must be a map".to_string()).message(),
        "Invalid structure: LLSD must be a map"
    );
}

#[test]
fn a_name_that_holds_a_zero_byte_ends_at_it() {
    let mut a: StoredAnimation = Animation::new();
    a.header.emote_name = "\0".to_string();
    let bytes = a.to_bytes().unwrap();
    assert_eq!(bytes.len(), 46);
    let (read, next) = avatar_anim::binary::read_animation(&bytes).unwrap();
    assert_eq!(next, 45);
    assert_eq!(read.header.emote_name, "");
    assert_eq!(read.header.hand_pose, 0x3f);
    assert!(Animation::from_bytes(&bytes[..45]).is_ok());
    assert_eq!(
        Animation::from_bytes(&bytes[..44]),
        Err(AnimError::Binary(BinaryFault::Truncated))
    );
}
