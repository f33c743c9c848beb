use crate::error::{AnimError, BinaryFault};
use crate::io::{
    codes_at, codes_bytes, cstr_bytes, decode_cstr, fixed_bytes, get16, get32, int_of, le16,
    le32, lenient_text, read_codes, read_fixed_length_string, read_i32,
    read_null_terminated_string, read_u16, read_u32, read_u8, word_of, write_codes,
    write_fixed_length_string, write_i32, write_null_terminated_string, write_u16, write_u32,
    write_u8, Args,
};
use crate::keys::{Keyframe, PositionKey, RotationKey};
use crate::model::{
    constraint_views, joint_views, Animation, AnimationHeader, AnimationView, Constraint,
    ConstraintView, HeaderView, JointData, JointView, Offset, Quantized, Scalar,
};
use vstd::prelude::*;

verus! {

/// An animation as the file holds it: every value of a keyframe under its
/// three codes.
pub type StoredAnimation = Animation<Quantized, Quantized>;

/// What a [`StoredAnimation`] holds.
pub type StoredView = AnimationView<Quantized, Quantized>;

/// What a stored joint holds.
pub type StoredJoint = JointView<Quantized, Quantized>;

/// The bytes of a keyframe: its timestamp, then the three codes of its value.
pub open spec fn key_bytes<K: Keyframe<Value = Quantized>>(k: K) -> Seq<u8> {
    le16(k.stamp()) + codes_bytes(k.payload())
}

/// The bytes of keyframes one after the other.
pub open spec fn keys_bytes<K: Keyframe<Value = Quantized>>(ks: Seq<K>) -> Seq<u8>
    decreases ks.len(),
{
    if ks.len() == 0 {
        Seq::empty()
    } else {
        keys_bytes(ks.drop_last()) + key_bytes(ks.last())
    }
}

/// The bytes of a scalar: its bit pattern, low byte first.
pub open spec fn scalar_bytes(x: Scalar) -> Seq<u8> {
    le32(x.bits)
}

/// The bytes of an offset: x, y, z.
pub open spec fn offset_bytes(o: Offset) -> Seq<u8> {
    scalar_bytes(o.x) + scalar_bytes(o.y) + scalar_bytes(o.z)
}

/// The header up to its name.
pub open spec fn header_front(h: HeaderView) -> Seq<u8> {
    le16(h.version) + le16(h.sub_version) + le32(word_of(h.base_priority)) + scalar_bytes(
        h.duration,
    )
}

/// The header behind its name.
pub open spec fn header_back(h: HeaderView) -> Seq<u8> {
    scalar_bytes(h.loop_in_point) + scalar_bytes(h.loop_out_point) + le32(word_of(h.looped))
        + scalar_bytes(h.ease_in_duration) + scalar_bytes(h.ease_out_duration) + le32(h.hand_pose)
}

/// The bytes of a header: version, sub-version, priority, duration, name,
/// loop in, loop out, loop flag, ease in, ease out, hand pose.
pub open spec fn header_bytes(h: HeaderView) -> Seq<u8> {
    header_front(h) + cstr_bytes(h.emote_name) + header_back(h)
}

/// The bytes of a joint: name, priority, number of rotation keys, rotation
/// keys, number of position keys, position keys.
pub open spec fn joint_bytes(j: StoredJoint) -> Seq<u8> {
    cstr_bytes(j.name) + le32(word_of(j.priority)) + le32(word_of(j.rotation_keys.len() as i32))
        + keys_bytes(j.rotation_keys) + le32(word_of(j.position_keys.len() as i32)) + keys_bytes(
        j.position_keys,
    )
}

/// The bytes of joints one after the other.
pub open spec fn joints_bytes(js: Seq<StoredJoint>) -> Seq<u8>
    decreases js.len(),
{
    if js.len() == 0 {
        Seq::empty()
    } else {
        joints_bytes(js.drop_last()) + joint_bytes(js.last())
    }
}

/// The bytes of a constraint: chain length, type, source volume, source
/// offset, target volume, target offset, target direction, and the four ease
/// times. The names of the volumes take 16 bytes each.
pub open spec fn constraint_bytes(c: ConstraintView) -> Seq<u8> {
    seq![c.chain_length, c.constraint_type] + fixed_bytes(c.source_volume, 16) + offset_bytes(
        c.source_offset,
    ) + fixed_bytes(c.target_volume, 16) + offset_bytes(c.target_offset) + offset_bytes(
        c.target_dir,
    ) + scalar_bytes(c.ease_in_start) + scalar_bytes(c.ease_in_stop) + scalar_bytes(
        c.ease_out_start,
    ) + scalar_bytes(c.ease_out_stop)
}

/// The bytes of constraints one after the other.
pub open spec fn constraints_bytes(cs: Seq<ConstraintView>) -> Seq<u8>
    decreases cs.len(),
{
    if cs.len() == 0 {
        Seq::empty()
    } else {
        constraints_bytes(cs.drop_last()) + constraint_bytes(cs.last())
    }
}

/// The bytes of an animation: header, number of joints, joints, number of
/// constraints, constraints. Every count is the length of its list.
pub open spec fn animation_bytes(a: StoredView) -> Seq<u8> {
    header_bytes(a.header) + le32(a.joints.len() as u32) + joints_bytes(a.joints) + le32(
        word_of(a.constraints.len() as i32),
    ) + constraints_bytes(a.constraints)
}

/// Every list of the joint is short enough for its count field.
pub open spec fn joint_encodable<R, P>(j: JointView<R, P>) -> bool {
    j.rotation_keys.len() <= i32::MAX && j.position_keys.len() <= i32::MAX
}

/// Every list of the animation is short enough for its count field.
pub open spec fn encodable<R, P>(a: AnimationView<R, P>) -> bool {
    &&& a.joints.len() <= u32::MAX
    &&& a.constraints.len() <= i32::MAX
    &&& forall|i: int| 0 <= i < a.joints.len() ==> joint_encodable(#[trigger] a.joints[i])
}

/// The keyframe whose bytes start at `at`.
pub open spec fn key_at<K: Keyframe<Value = Quantized>>(s: Seq<u8>, at: int) -> K {
    K::made(get16(s, at), codes_at(s, at + 2))
}

/// `count` keyframes one after the other from `at`.
pub open spec fn keys_at<K: Keyframe<Value = Quantized>>(s: Seq<u8>, at: int, count: nat) -> Seq<K> {
    Seq::new(count, |i: int| key_at::<K>(s, at + 8 * i))
}

/// The scalar whose bytes start at `at`.
pub open spec fn scalar_at(s: Seq<u8>, at: int) -> Scalar {
    Scalar { bits: get32(s, at) }
}

/// The offset whose bytes start at `at`.
pub open spec fn offset_at(s: Seq<u8>, at: int) -> Offset {
    Offset { x: scalar_at(s, at), y: scalar_at(s, at + 4), z: scalar_at(s, at + 8) }
}

/// A header at `at`, and the place behind it.
pub open spec fn decode_header(s: Seq<u8>, at: int) -> Result<(HeaderView, int), BinaryFault> {
    if at + 12 > s.len() {
        Err(BinaryFault::Truncated)
    } else {
        match decode_cstr(s, at + 12) {
            Err(e) => Err(e),
            Ok((name, m)) => if m + 24 > s.len() {
                Err(BinaryFault::Truncated)
            } else {
                Ok(
                    (
                        HeaderView {
                            version: get16(s, at),
                            sub_version: get16(s, at + 2),
                            base_priority: int_of(get32(s, at + 4)),
                            duration: scalar_at(s, at + 8),
                            emote_name: name,
                            loop_in_point: scalar_at(s, m),
                            loop_out_point: scalar_at(s, m + 4),
                            looped: int_of(get32(s, m + 8)),
                            ease_in_duration: scalar_at(s, m + 12),
                            ease_out_duration: scalar_at(s, m + 16),
                            hand_pose: get32(s, m + 20),
                        },
                        m + 24,
                    ),
                )
            },
        }
    }
}

/// A list of keys whose count stands at `at`, and the place behind it.
pub open spec fn decode_keys<K: Keyframe<Value = Quantized>>(s: Seq<u8>, at: int) -> Result<
    (Seq<K>, int),
    BinaryFault,
> {
    if at + 4 > s.len() {
        Err(BinaryFault::Truncated)
    } else {
        let count = int_of(get32(s, at));
        if count < 0 {
            Err(BinaryFault::CountOutOfRange)
        } else if at + 4 + 8 * count > s.len() {
            Err(BinaryFault::Truncated)
        } else {
            Ok((keys_at::<K>(s, at + 4, count as nat), at + 4 + 8 * count))
        }
    }
}

/// A joint at `at`, and the place behind it.
pub open spec fn decode_joint(s: Seq<u8>, at: int) -> Result<(StoredJoint, int), BinaryFault> {
    match decode_cstr(s, at) {
        Err(e) => Err(e),
        Ok((name, n)) => if n + 4 > s.len() {
            Err(BinaryFault::Truncated)
        } else {
            match decode_keys::<RotationKey<Quantized>>(s, n + 4) {
                Err(e) => Err(e),
                Ok((rotation_keys, m)) => match decode_keys::<PositionKey<Quantized>>(s, m) {
                    Err(e) => Err(e),
                    Ok((position_keys, next)) => Ok(
                        (
                            JointView {
                                name,
                                priority: int_of(get32(s, n)),
                                rotation_keys,
                                position_keys,
                            },
                            next,
                        ),
                    ),
                },
            }
        },
    }
}

/// `count` joints one after the other from `at`, and the place behind them.
pub open spec fn decode_joints(s: Seq<u8>, at: int, count: nat) -> Result<
    (Seq<StoredJoint>, int),
    BinaryFault,
>
    decreases count,
{
    if count == 0 {
        Ok((Seq::empty(), at))
    } else {
        match decode_joints(s, at, (count - 1) as nat) {
            Err(e) => Err(e),
            Ok((init, m)) => match decode_joint(s, m) {
                Err(e) => Err(e),
                Ok((j, next)) => Ok((init.push(j), next)),
            },
        }
    }
}

/// The constraint whose bytes start at `at`.
pub open spec fn constraint_at(s: Seq<u8>, at: int) -> ConstraintView {
    ConstraintView {
        chain_length: s[at],
        constraint_type: s[at + 1],
        source_volume: lenient_text(s.subrange(at + 2, at + 18)),
        source_offset: offset_at(s, at + 18),
        target_volume: lenient_text(s.subrange(at + 30, at + 46)),
        target_offset: offset_at(s, at + 46),
        target_dir: offset_at(s, at + 58),
        ease_in_start: scalar_at(s, at + 70),
        ease_in_stop: scalar_at(s, at + 74),
        ease_out_start: scalar_at(s, at + 78),
        ease_out_stop: scalar_at(s, at + 82),
    }
}

/// `count` constraints one after the other from `at`.
pub open spec fn constraints_at(s: Seq<u8>, at: int, count: nat) -> Seq<ConstraintView> {
    Seq::new(count, |i: int| constraint_at(s, at + 86 * i))
}

/// A list of constraints whose count stands at `at`, and the place behind it.
pub open spec fn decode_constraints(s: Seq<u8>, at: int) -> Result<
    (Seq<ConstraintView>, int),
    BinaryFault,
> {
    if at + 4 > s.len() {
        Err(BinaryFault::Truncated)
    } else {
        let count = int_of(get32(s, at));
        if count < 0 {
            Err(BinaryFault::CountOutOfRange)
        } else if at + 4 + 86 * count > s.len() {
            Err(BinaryFault::Truncated)
        } else {
            Ok((constraints_at(s, at + 4, count as nat), at + 4 + 86 * count))
        }
    }
}

/// The animation at the start of `s`, and the number of bytes it takes.
/// What follows it is not looked at.
pub open spec fn decode_animation(s: Seq<u8>) -> Result<(StoredView, int), BinaryFault> {
    match decode_header(s, 0) {
        Err(e) => Err(e),
        Ok((header, a)) => if a + 4 > s.len() {
            Err(BinaryFault::Truncated)
        } else {
            match decode_joints(s, a + 4, get32(s, a) as nat) {
                Err(e) => Err(e),
                Ok((joints, b)) => match decode_constraints(s, b) {
                    Err(e) => Err(e),
                    Ok((constraints, next)) => Ok(
                        (AnimationView { header, joints, constraints }, next),
                    ),
                },
            }
        },
    }
}


fn read_scalar(bytes: &[u8], pos: usize) -> (r: Result<(Scalar, usize), BinaryFault>)
    ensures
        match r {
            Ok((x, next)) => pos + 4 <= bytes@.len() && x == scalar_at(bytes@, pos as int) && next
                == pos + 4,
            Err(e) => e == BinaryFault::Truncated && pos + 4 > bytes@.len(),
        },
{
    match read_u32(bytes, pos) {
        Ok((bits, next)) => Ok((Scalar { bits }, next)),
        Err(e) => Err(e),
    }
}

fn read_offset(bytes: &[u8], pos: usize) -> (r: Result<(Offset, usize), BinaryFault>)
    ensures
        match r {
            Ok((o, next)) => pos + 12 <= bytes@.len() && o == offset_at(bytes@, pos as int) && next
                == pos + 12,
            Err(e) => e == BinaryFault::Truncated && pos + 12 > bytes@.len(),
        },
{
    let (x, behind_x) = match read_scalar(bytes, pos) {
        Ok(v) => v,
        Err(e) => return Err(e),
    };
    let (y, behind_y) = match read_scalar(bytes, behind_x) {
        Ok(v) => v,
        Err(e) => return Err(e),
    };
    let (z, behind_z) = match read_scalar(bytes, behind_y) {
        Ok(v) => v,
        Err(e) => return Err(e),
    };
    Ok((Offset { x, y, z }, behind_z))
}

/// Reads a header at `pos`.
pub fn read_header(bytes: &[u8], pos: usize) -> (r: Result<(AnimationHeader, usize), BinaryFault>)
    ensures
        match r {
            Ok((h, next)) => decode_header(bytes@, pos as int) == Ok::<_, BinaryFault>(
                (h@, next as int),
            ),
            Err(e) => decode_header(bytes@, pos as int) == Err::<(HeaderView, int), _>(e),
        },
{
    let (version, p) = match read_u16(bytes, pos) {
        Ok(v) => v,
        Err(e) => return Err(e),
    };
    let (sub_version, p) = match read_u16(bytes, p) {
        Ok(v) => v,
        Err(e) => return Err(e),
    };
    let (base_priority, p) = match read_i32(bytes, p) {
        Ok(v) => v,
        Err(e) => return Err(e),
    };
    let (duration, p) = match read_scalar(bytes, p) {
        Ok(v) => v,
        Err(e) => return Err(e),
    };
    let (emote_name, p) = match read_null_terminated_string(bytes, p) {
        Ok(v) => v,
        Err(e) => return Err(e),
    };
    let (loop_in_point, p) = match read_scalar(bytes, p) {
        Ok(v) => v,
        Err(e) => return Err(e),
    };
    let (loop_out_point, p) = match read_scalar(bytes, p) {
        Ok(v) => v,
        Err(e) => return Err(e),
    };
    let (looped, p) = match read_i32(bytes, p) {
        Ok(v) => v,
        Err(e) => return Err(e),
    };
    let (ease_in_duration, p) = match read_scalar(bytes, p) {
        Ok(v) => v,
        Err(e) => return Err(e),
    };
    let (ease_out_duration, p) = match read_scalar(bytes, p) {
        Ok(v) => v,
        Err(e) => return Err(e),
    };
    let (hand_pose, p) = match read_u32(bytes, p) {
        Ok(v) => v,
        Err(e) => return Err(e),
    };
    Ok(
        (
            AnimationHeader {
                version,
                sub_version,
                base_priority,
                duration,
                emote_name,
                loop_in_point,
                loop_out_point,
                looped,
                ease_in_duration,
                ease_out_duration,
                hand_pose,
            },
            p,
        ),
    )
}

/// Reads a list of keys whose count stands at `pos`.
pub fn read_keys<K: Keyframe<Value = Quantized>>(bytes: &[u8], pos: usize) -> (r: Result<
    (Vec<K>, usize),
    BinaryFault,
>)
    ensures
        match r {
            Ok((ks, next)) => decode_keys::<K>(bytes@, pos as int) == Ok::<_, BinaryFault>(
                (ks@, next as int),
            ),
            Err(e) => decode_keys::<K>(bytes@, pos as int) == Err::<(Seq<K>, int), _>(e),
        },
{
    let (count, start) = match read_i32(bytes, pos) {
        Ok(v) => v,
        Err(e) => return Err(e),
    };
    if count < 0 {
        return Err(BinaryFault::CountOutOfRange);
    }
    let n = count as usize;
    if n > (bytes.len() - start) / 8 {
        return Err(BinaryFault::Truncated);
    }
    let mut keys: Vec<K> = Vec::new();
    let mut i: usize = 0;
    while i < n
        invariant
            i <= n,
            start + 8 * n <= bytes@.len() <= usize::MAX,
            keys@ == keys_at::<K>(bytes@, start as int, i as nat),
        decreases n - i,
    {
        let at = start + 8 * i;
        let (time, p) = match read_u16(bytes, at) {
            Ok(v) => v,
            Err(e) => return Err(e),
        };
        let (codes, _) = match read_codes(bytes, p) {
            Ok(v) => v,
            Err(e) => return Err(e),
        };
        keys.push(K::at(time, codes));
        assert(keys@ =~= keys_at::<K>(bytes@, start as int, (i + 1) as nat));
        i += 1;
    }
    Ok((keys, start + 8 * n))
}

/// Reads a joint at `pos`.
pub fn read_joint(bytes: &[u8], pos: usize) -> (r: Result<
    (JointData<Quantized, Quantized>, usize),
    BinaryFault,
>)
    ensures
        match r {
            Ok((j, next)) => decode_joint(bytes@, pos as int) == Ok::<_, BinaryFault>(
                (j@, next as int),
            ),
            Err(e) => decode_joint(bytes@, pos as int) == Err::<(StoredJoint, int), _>(e),
        },
{
    let (name, p) = match read_null_terminated_string(bytes, pos) {
        Ok(v) => v,
        Err(e) => return Err(e),
    };
    let (priority, p) = match read_i32(bytes, p) {
        Ok(v) => v,
        Err(e) => return Err(e),
    };
    let (rotation_keys, p) = match read_keys::<RotationKey<Quantized>>(bytes, p) {
        Ok(v) => v,
        Err(e) => return Err(e),
    };
    let (position_keys, p) = match read_keys::<PositionKey<Quantized>>(bytes, p) {
        Ok(v) => v,
        Err(e) => return Err(e),
    };
    Ok((JointData { name, priority, rotation_keys, position_keys }, p))
}

/// A failure among the first joints is a failure of the whole list.
proof fn lemma_joints_fail(s: Seq<u8>, at: int, done: nat, count: nat)
    requires
        done <= count,
        decode_joints(s, at, done) is Err,
    ensures
        decode_joints(s, at, count) == decode_joints(s, at, done),
    decreases count,
{
    if done < count {
        lemma_joints_fail(s, at, done, (count - 1) as nat);
    }
}

/// Reads `count` joints one after the other from `pos`.
pub fn read_joints(bytes: &[u8], pos: usize, count: u32) -> (r: Result<
    (Vec<JointData<Quantized, Quantized>>, usize),
    BinaryFault,
>)
    ensures
        match r {
            Ok((js, next)) => decode_joints(bytes@, pos as int, count as nat) == Ok::<
                _,
                BinaryFault,
            >((joint_views(js@), next as int)),
            Err(e) => decode_joints(bytes@, pos as int, count as nat) == Err::<
                (Seq<StoredJoint>, int),
                _,
            >(e),
        },
{
    let mut joints: Vec<JointData<Quantized, Quantized>> = Vec::new();
    let mut p: usize = pos;
    let mut i: u32 = 0;
    assert(joint_views(joints@) =~= Seq::empty());
    while i < count
        invariant
            i <= count,
            decode_joints(bytes@, pos as int, i as nat) == Ok::<_, BinaryFault>(
                (joint_views(joints@), p as int),
            ),
        decreases count - i,
    {
        let ghost views = joint_views(joints@);
        match read_joint(bytes, p) {
            Ok((j, next)) => {
                joints.push(j);
                p = next;
                assert(joint_views(joints@) =~= views.push(j@));
            },
            Err(e) => {
                proof {
                    assert(decode_joints(bytes@, pos as int, (i + 1) as nat) == Err::<
                        (Seq<StoredJoint>, int),
                        _,
                    >(e));
                    lemma_joints_fail(bytes@, pos as int, (i + 1) as nat, count as nat);
                }
                return Err(e);
            },
        }
        i += 1;
    }
    Ok((joints, p))
}

/// Reads a constraint at `pos`.
pub fn read_constraint(bytes: &[u8], pos: usize) -> (r: Result<(Constraint, usize), BinaryFault>)
    ensures
        match r {
            Ok((c, next)) => pos + 86 <= bytes@.len() && c@ == constraint_at(bytes@, pos as int)
                && next == pos + 86,
            Err(e) => e == BinaryFault::Truncated && pos + 86 > bytes@.len(),
        },
{
    if bytes.len() < 86 || pos > bytes.len() - 86 {
        return Err(BinaryFault::Truncated);
    }
    let (chain_length, p) = match read_u8(bytes, pos) {
        Ok(v) => v,
        Err(e) => return Err(e),
    };
    let (constraint_type, p) = match read_u8(bytes, p) {
        Ok(v) => v,
        Err(e) => return Err(e),
    };
    let (source_volume, p) = match read_fixed_length_string(bytes, p, Args { count: 16 }) {
        Ok(v) => v,
        Err(e) => return Err(e),
    };
    let (source_offset, p) = match read_offset(bytes, p) {
        Ok(v) => v,
        Err(e) => return Err(e),
    };
    let (target_volume, p) = match read_fixed_length_string(bytes, p, Args { count: 16 }) {
        Ok(v) => v,
        Err(e) => return Err(e),
    };
    let (target_offset, p) = match read_offset(bytes, p) {
        Ok(v) => v,
        Err(e) => return Err(e),
    };
    let (target_dir, p) = match read_offset(bytes, p) {
        Ok(v) => v,
        Err(e) => return Err(e),
    };
    let (ease_in_start, p) = match read_scalar(bytes, p) {
        Ok(v) => v,
        Err(e) => return Err(e),
    };
    let (ease_in_stop, p) = match read_scalar(bytes, p) {
        Ok(v) => v,
        Err(e) => return Err(e),
    };
    let (ease_out_start, p) = match read_scalar(bytes, p) {
        Ok(v) => v,
        Err(e) => return Err(e),
    };
    let (ease_out_stop, p) = match read_scalar(bytes, p) {
        Ok(v) => v,
        Err(e) => return Err(e),
    };
    Ok(
        (
            Constraint {
                chain_length,
                constraint_type,
                source_volume,
                source_offset,
                target_volume,
                target_offset,
                target_dir,
                ease_in_start,
                ease_in_stop,
                ease_out_start,
                ease_out_stop,
            },
            p,
        ),
    )
}

/// Reads a list of constraints whose count stands at `pos`.
pub fn read_constraints(bytes: &[u8], pos: usize) -> (r: Result<(Vec<Constraint>, usize), BinaryFault>)
    ensures
        match r {
            Ok((cs, next)) => decode_constraints(bytes@, pos as int) == Ok::<_, BinaryFault>(
                (constraint_views(cs@), next as int),
            ),
            Err(e) => decode_constraints(bytes@, pos as int) == Err::<
                (Seq<ConstraintView>, int),
                _,
            >(e),
        },
{
    let (count, start) = match read_i32(bytes, pos) {
        Ok(v) => v,
        Err(e) => return Err(e),
    };
    if count < 0 {
        return Err(BinaryFault::CountOutOfRange);
    }
    let n = count as usize;
    if n > (bytes.len() - start) / 86 {
        return Err(BinaryFault::Truncated);
    }
    let mut constraints: Vec<Constraint> = Vec::new();
    let mut i: usize = 0;
    assert(constraint_views(constraints@) =~= constraints_at(bytes@, start as int, 0));
    while i < n
        invariant
            i <= n,
            start + 86 * n <= bytes@.len() <= usize::MAX,
            constraint_views(constraints@) == constraints_at(bytes@, start as int, i as nat),
        decreases n - i,
    {
        let ghost views = constraint_views(constraints@);
        let (c, _) = match read_constraint(bytes, start + 86 * i) {
            Ok(v) => v,
            Err(e) => return Err(e),
        };
        constraints.push(c);
        assert(constraint_views(constraints@) =~= views.push(c@));
        assert(constraint_views(constraints@) =~= constraints_at(
            bytes@,
            start as int,
            (i + 1) as nat,
        ));
        i += 1;
    }
    Ok((constraints, start + 86 * n))
}

/// Reads the animation at the start of `bytes`; what follows it is not
/// looked at. Also says how many bytes the animation takes.
pub fn read_animation(bytes: &[u8]) -> (r: Result<(StoredAnimation, usize), BinaryFault>)
    ensures
        match r {
            Ok((a, next)) => decode_animation(bytes@) == Ok::<_, BinaryFault>((a@, next as int)),
            Err(e) => decode_animation(bytes@) == Err::<(StoredView, int), _>(e),
        },
{
    let (header, p) = match read_header(bytes, 0) {
        Ok(v) => v,
        Err(e) => return Err(e),
    };
    let (count, p) = match read_u32(bytes, p) {
        Ok(v) => v,
        Err(e) => return Err(e),
    };
    let (joints, p) = match read_joints(bytes, p, count) {
        Ok(v) => v,
        Err(e) => return Err(e),
    };
    let (constraints, p) = match read_constraints(bytes, p) {
        Ok(v) => v,
        Err(e) => return Err(e),
    };
    Ok((Animation { header, joints, constraints }, p))
}


fn write_scalar(x: Scalar, out: &mut Vec<u8>)
    ensures
        final(out)@ == old(out)@ + scalar_bytes(x),
{
    write_u32(out, x.bits);
}

fn write_offset(o: &Offset, out: &mut Vec<u8>)
    ensures
        final(out)@ == old(out)@ + offset_bytes(*o),
{
    write_scalar(o.x, out);
    write_scalar(o.y, out);
    write_scalar(o.z, out);
    assert(out@ =~= old(out)@ + offset_bytes(*o));
}

/// Appends a header.
pub fn write_header(h: &AnimationHeader, out: &mut Vec<u8>)
    ensures
        final(out)@ == old(out)@ + header_bytes(h@),
{
    write_u16(out, h.version);
    write_u16(out, h.sub_version);
    write_i32(out, h.base_priority);
    write_scalar(h.duration, out);
    assert(out@ =~= old(out)@ + header_front(h@));
    write_null_terminated_string(&h.emote_name, out);
    let ghost mid = out@;
    write_scalar(h.loop_in_point, out);
    write_scalar(h.loop_out_point, out);
    write_i32(out, h.looped);
    write_scalar(h.ease_in_duration, out);
    write_scalar(h.ease_out_duration, out);
    write_u32(out, h.hand_pose);
    assert(out@ =~= mid + header_back(h@));
    assert(out@ =~= old(out)@ + header_bytes(h@));
}

/// Appends keys one after the other, without their count.
pub fn write_keys<K: Keyframe<Value = Quantized>>(keys: &Vec<K>, out: &mut Vec<u8>)
    ensures
        final(out)@ == old(out)@ + keys_bytes(keys@),
{
    let mut i: usize = 0;
    assert(keys_bytes(keys@.take(0)) =~= Seq::<u8>::empty());
    assert(out@ =~= old(out)@ + keys_bytes(keys@.take(0)));
    while i < keys.len()
        invariant
            i <= keys@.len(),
            out@ == old(out)@ + keys_bytes(keys@.take(i as int)),
        decreases keys.len() - i,
    {
        let ghost before = out@;
        let k = keys[i];
        write_u16(out, k.time());
        let q = k.value();
        write_codes(&q, out);
        proof {
            let next = keys@.take(i as int + 1);
            assert(next.drop_last() == keys@.take(i as int));
            assert(next.last() == k);
            assert(out@ =~= before + key_bytes(k));
            assert(out@ =~= old(out)@ + keys_bytes(next));
        }
        i += 1;
    }
    assert(keys@.take(i as int) == keys@);
}

/// Appends a joint whose lists are short enough for their count fields.
pub fn write_joint(j: &JointData<Quantized, Quantized>, out: &mut Vec<u8>)
    requires
        joint_encodable(j@),
    ensures
        final(out)@ == old(out)@ + joint_bytes(j@),
{
    write_null_terminated_string(&j.name, out);
    write_i32(out, j.priority);
    write_i32(out, j.rotation_keys.len() as i32);
    write_keys(&j.rotation_keys, out);
    write_i32(out, j.position_keys.len() as i32);
    write_keys(&j.position_keys, out);
    assert(out@ =~= old(out)@ + joint_bytes(j@));
}

/// Appends a constraint.
pub fn write_constraint(c: &Constraint, out: &mut Vec<u8>)
    ensures
        final(out)@ == old(out)@ + constraint_bytes(c@),
{
    write_u8(out, c.chain_length);
    write_u8(out, c.constraint_type);
    write_fixed_length_string(&c.source_volume, out, Args { count: 16 });
    write_offset(&c.source_offset, out);
    write_fixed_length_string(&c.target_volume, out, Args { count: 16 });
    write_offset(&c.target_offset, out);
    write_offset(&c.target_dir, out);
    write_scalar(c.ease_in_start, out);
    write_scalar(c.ease_in_stop, out);
    write_scalar(c.ease_out_start, out);
    write_scalar(c.ease_out_stop, out);
    assert(out@ =~= old(out)@ + constraint_bytes(c@));
}

/// Every list of the animation is short enough for its count field.
pub fn is_encodable<R, P>(a: &Animation<R, P>) -> (ok: bool)
    ensures
        ok == encodable(a@),
{
    if a.joints.len() > 0xffff_ffff || a.constraints.len() > 0x7fff_ffff {
        return false;
    }
    let mut i: usize = 0;
    while i < a.joints.len()
        invariant
            i <= a.joints@.len(),
            forall|k: int| 0 <= k < i ==> joint_encodable(#[trigger] a@.joints[k]),
        decreases a.joints.len() - i,
    {
        if a.joints[i].rotation_keys.len() > 0x7fff_ffff || a.joints[i].position_keys.len()
            > 0x7fff_ffff {
            assert(!joint_encodable(a@.joints[i as int]));
            return false;
        }
        assert(joint_encodable(a@.joints[i as int]));
        i += 1;
    }
    true
}

/// Appends an animation whose lists are short enough for their count fields.
pub fn write_animation(a: &StoredAnimation, out: &mut Vec<u8>)
    requires
        encodable(a@),
    ensures
        final(out)@ == old(out)@ + animation_bytes(a@),
{
    write_header(&a.header, out);
    write_u32(out, a.joints.len() as u32);
    let ghost start = out@;
    let ghost views = a@.joints;
    let mut i: usize = 0;
    assert(joints_bytes(views.take(0)) =~= Seq::<u8>::empty());
    assert(out@ =~= start + joints_bytes(views.take(0)));
    while i < a.joints.len()
        invariant
            i <= a.joints@.len(),
            views == a@.joints,
            encodable(a@),
            out@ == start + joints_bytes(views.take(i as int)),
        decreases a.joints.len() - i,
    {
        let ghost before = out@;
        assert(joint_encodable(a@.joints[i as int]));
        write_joint(&a.joints[i], out);
        proof {
            let next = views.take(i as int + 1);
            assert(next.drop_last() == views.take(i as int));
            assert(next.last() == a.joints@[i as int]@);
            assert(out@ =~= start + joints_bytes(next));
        }
        i += 1;
    }
    assert(views.take(i as int) == views);
    write_i32(out, a.constraints.len() as i32);
    let ghost mid = out@;
    let ghost cviews = a@.constraints;
    let mut k: usize = 0;
    assert(constraints_bytes(cviews.take(0)) =~= Seq::<u8>::empty());
    assert(out@ =~= mid + constraints_bytes(cviews.take(0)));
    while k < a.constraints.len()
        invariant
            k <= a.constraints@.len(),
            cviews == a@.constraints,
            out@ == mid + constraints_bytes(cviews.take(k as int)),
        decreases a.constraints.len() - k,
    {
        write_constraint(&a.constraints[k], out);
        proof {
            let next = cviews.take(k as int + 1);
            assert(next.drop_last() == cviews.take(k as int));
            assert(next.last() == a.constraints@[k as int]@);
            assert(out@ =~= mid + constraints_bytes(next));
        }
        k += 1;
    }
    assert(cviews.take(k as int) == cviews);
    assert(out@ =~= old(out)@ + animation_bytes(a@));
}


impl Animation<Quantized, Quantized> {
    /// Reads the animation at the start of `bytes`. What follows it is not
    /// looked at. Fails exactly where the bytes are no animation, and says
    /// why.
    pub fn from_bytes(bytes: &[u8]) -> (r: Result<Self, AnimError>)
        ensures
            match r {
                Ok(a) => decode_animation(bytes@) matches Ok((v, _)) && a@ == v,
                Err(e) => decode_animation(bytes@) matches Err(f) && e == AnimError::Binary(f),
            },
    {
        match read_animation(bytes) {
            Ok((a, _)) => Ok(a),
            Err(f) => Err(AnimError::Binary(f)),
        }
    }

    /// The bytes of the animation. Fails exactly where a list is too long
    /// for its count field.
    pub fn to_bytes(&self) -> (r: Result<Vec<u8>, AnimError>)
        ensures
            match r {
                Ok(bytes) => encodable(self@) && bytes@ == animation_bytes(self@),
                Err(e) => !encodable(self@) && e == AnimError::Binary(BinaryFault::CountOutOfRange),
            },
    {
        if !is_encodable(self) {
            return Err(AnimError::Binary(BinaryFault::CountOutOfRange));
        }
        let mut out: Vec<u8> = Vec::new();
        write_animation(self, &mut out);
        assert(out@ =~= animation_bytes(self@));
        Ok(out)
    }
}

} // verus!
