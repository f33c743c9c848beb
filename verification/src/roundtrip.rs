use crate::binary::{
    animation_bytes, constraint_at, constraint_bytes, constraints_at, constraints_bytes,
    decode_animation, decode_constraints, decode_header, decode_joint, decode_joints,
    decode_keys, encodable, header_back, header_bytes, header_front, joint_bytes,
    joint_encodable, joints_bytes, key_at, key_bytes, keys_at, keys_bytes, offset_at,
    offset_bytes, scalar_at, scalar_bytes, StoredJoint, StoredView,
};
use crate::error::BinaryFault;
use crate::io::{
    before_zero, codes_at, codes_bytes, cstr_bytes, decode_cstr, first_zero, fixed_bytes, get32,
    has_zero_from, int_of, le16, le32, lemma_first_zero, lemma_get16_le16, lemma_get16_window,
    lemma_get32_le32, lemma_get32_window, lemma_widths, lemma_word_int, lenient_text, word_of,
    zero_from,
};
use crate::keys::{Keyframe, PositionKey, RotationKey};
use crate::model::{ConstraintView, HeaderView, JointView, Offset, Quantized, Scalar};
use vstd::prelude::*;
use vstd::utf8::*;

verus! {

/// The text can stand in a null-terminated field: its bytes hold no zero.
pub open spec fn terminable(text: Seq<char>) -> bool {
    forall|i: int| 0 <= i < encode_utf8(text).len() ==> encode_utf8(text)[i] != 0
}

/// The text can stand in a field of `width` bytes: it fits, and its bytes
/// hold no zero.
pub open spec fn fits(text: Seq<char>, width: nat) -> bool {
    terminable(text) && encode_utf8(text).len() <= width
}

/// The animation comes back from its bytes as it is: every list is short
/// enough for its count field, no name holds a zero byte, and the names of
/// collision volumes take at most 16 bytes.
pub open spec fn storable(a: StoredView) -> bool {
    &&& encodable(a)
    &&& terminable(a.header.emote_name)
    &&& forall|i: int| 0 <= i < a.joints.len() ==> terminable((#[trigger] a.joints[i]).name)
    &&& forall|i: int|
        0 <= i < a.constraints.len() ==> fits((#[trigger] a.constraints[i]).source_volume, 16)
            && fits(a.constraints[i].target_volume, 16)
}

/// Regrouping a stretch of two parts between what stands before and behind.
proof fn lemma_split2(pre: Seq<u8>, a: Seq<u8>, b: Seq<u8>, post: Seq<u8>)
    ensures
        pre + (a + b) + post == pre + a + (b + post),
        pre + (a + b) + post == (pre + a) + b + post,
        (a + b).len() == a.len() + b.len(),
{
    assert(pre + (a + b) + post =~= pre + a + (b + post));
    assert(pre + (a + b) + post =~= (pre + a) + b + post);
}

/// Regrouping a stretch of three parts between what stands before and behind.
proof fn lemma_split3(pre: Seq<u8>, a: Seq<u8>, b: Seq<u8>, c: Seq<u8>, post: Seq<u8>)
    ensures
        pre + (a + b + c) + post == pre + a + (b + c + post),
        pre + (a + b + c) + post == (pre + a) + b + (c + post),
        pre + (a + b + c) + post == (pre + a + b) + c + post,
        (a + b + c).len() == a.len() + b.len() + c.len(),
{
    assert(pre + (a + b + c) + post =~= pre + a + (b + c + post));
    assert(pre + (a + b + c) + post =~= (pre + a) + b + (c + post));
    assert(pre + (a + b + c) + post =~= (pre + a + b) + c + post);
}

/// A null-terminated text field reads back as the text that was written.
pub proof fn lemma_cstr_roundtrip(pre: Seq<u8>, text: Seq<char>, post: Seq<u8>)
    requires
        terminable(text),
    ensures
        decode_cstr(pre + cstr_bytes(text) + post, pre.len() as int) == Ok::<_, BinaryFault>(
            (text, (pre.len() + cstr_bytes(text).len()) as int),
        ),
{
    let enc = encode_utf8(text);
    let s = pre + cstr_bytes(text) + post;
    let at = pre.len() as int;
    let z = at + enc.len();
    assert(s[z] == 0u8);
    assert forall|k: int| at <= k < z implies s[k] != 0 by {
        assert(s[k] == enc[k - at]);
    }
    assert(zero_from(s, at, z));
    lemma_first_zero(s, at, z);
    assert(s.subrange(at, z) =~= enc);
    encode_utf8_valid_utf8(text);
    encode_utf8_decode_utf8(text);
}

/// A fixed-width text field reads back as the text that was written, where
/// the text fits.
pub proof fn lemma_fixed_roundtrip(text: Seq<char>, width: nat)
    requires
        fits(text, width),
    ensures
        lenient_text(fixed_bytes(text, width)) == text,
        fixed_bytes(text, width).len() == width,
{
    let enc = encode_utf8(text);
    let raw = fixed_bytes(text, width);
    if enc.len() < width {
        let z = enc.len() as int;
        assert(raw[z] == 0u8);
        assert forall|k: int| 0 <= k < z implies raw[k] != 0 by {
            assert(raw[k] == enc[k]);
        }
        assert(zero_from(raw, 0, z));
        lemma_first_zero(raw, 0, z);
        assert(raw.take(z) =~= enc);
    } else {
        if has_zero_from(raw, 0) {
            let i = choose|i: int| 0 <= i < raw.len() && raw[i] == 0;
            assert(raw[i] == enc[i]);
        }
        assert(raw =~= enc);
    }
    assert(before_zero(raw) == enc);
    encode_utf8_valid_utf8(text);
    encode_utf8_decode_utf8(text);
}

proof fn lemma_codes_read(q: Quantized)
    ensures
        codes_bytes(q).len() == 6,
        codes_at(codes_bytes(q), 0) == q,
{
    let b = codes_bytes(q);
    lemma_get16_le16(Seq::empty(), q.x, le16(q.y) + le16(q.z));
    assert(b =~= Seq::<u8>::empty() + le16(q.x) + (le16(q.y) + le16(q.z)));
    lemma_get16_le16(le16(q.x), q.y, le16(q.z));
    lemma_get16_le16(le16(q.x) + le16(q.y), q.z, Seq::empty());
    assert(b =~= le16(q.x) + le16(q.y) + le16(q.z) + Seq::<u8>::empty());
}

proof fn lemma_codes_window(s: Seq<u8>, at: int, body: Seq<u8>, k: int, pre: Seq<u8>, post: Seq<u8>)
    requires
        s == pre + body + post,
        at == pre.len() + k,
        0 <= k,
        k + 6 <= body.len(),
    ensures
        codes_at(s, at) == codes_at(body, k),
{
    lemma_get16_window(s, body, k, pre, post);
    lemma_get16_window(s, body, k + 2, pre, post);
    lemma_get16_window(s, body, k + 4, pre, post);
}

proof fn lemma_key_read<K: Keyframe<Value = Quantized>>(k: K)
    ensures
        key_bytes(k).len() == 8,
        key_at::<K>(key_bytes(k), 0) == k,
{
    let b = key_bytes(k);
    let c = codes_bytes(k.payload());
    lemma_codes_read(k.payload());
    lemma_get16_le16(Seq::empty(), k.stamp(), c);
    assert(b =~= Seq::<u8>::empty() + le16(k.stamp()) + c);
    lemma_codes_window(b, 2, c, 0, le16(k.stamp()), Seq::empty());
    assert(b =~= le16(k.stamp()) + c + Seq::<u8>::empty());
    K::lemma_made(k, k.stamp(), k.payload());
}

proof fn lemma_key_window<K: Keyframe<Value = Quantized>>(
    s: Seq<u8>,
    at: int,
    body: Seq<u8>,
    k: int,
    pre: Seq<u8>,
    post: Seq<u8>,
)
    requires
        s == pre + body + post,
        at == pre.len() + k,
        0 <= k,
        k + 8 <= body.len(),
    ensures
        key_at::<K>(s, at) == key_at::<K>(body, k),
{
    lemma_get16_window(s, body, k, pre, post);
    lemma_codes_window(s, at + 2, body, k + 2, pre, post);
}

/// Keys written one after the other read back as they are.
proof fn lemma_keys_read<K: Keyframe<Value = Quantized>>(ks: Seq<K>)
    ensures
        keys_bytes(ks).len() == 8 * ks.len(),
        keys_at::<K>(keys_bytes(ks), 0, ks.len()) == ks,
    decreases ks.len(),
{
    if ks.len() > 0 {
        let init = ks.drop_last();
        let last = ks.last();
        lemma_keys_read(init);
        lemma_key_read(last);
        let b = keys_bytes(ks);
        let bi = keys_bytes(init);
        let bl = key_bytes(last);
        assert(b == bi + bl);
        let got = keys_at::<K>(b, 0, ks.len());
        assert forall|i: int| 0 <= i < ks.len() implies got[i] == ks[i] by {
            if i < init.len() {
                assert(b =~= Seq::<u8>::empty() + bi + bl);
                lemma_key_window::<K>(b, 8 * i, bi, 8 * i, Seq::empty(), bl);
                assert(keys_at::<K>(bi, 0, init.len())[i] == init[i]);
            } else {
                assert(b =~= bi + bl + Seq::<u8>::empty());
                lemma_key_window::<K>(b, 8 * i, bl, 0, bi, Seq::empty());
            }
        }
        assert(got =~= ks);
    } else {
        assert(keys_at::<K>(keys_bytes(ks), 0, 0) =~= ks);
    }
}

/// A list of keys behind its count reads back as it is.
proof fn lemma_keys_roundtrip<K: Keyframe<Value = Quantized>>(
    pre: Seq<u8>,
    ks: Seq<K>,
    post: Seq<u8>,
)
    requires
        ks.len() <= i32::MAX,
    ensures
        decode_keys::<K>(
            pre + le32(word_of(ks.len() as i32)) + keys_bytes(ks) + post,
            pre.len() as int,
        ) == Ok::<_, BinaryFault>((ks, (pre.len() + 4 + 8 * ks.len()) as int)),
        keys_bytes(ks).len() == 8 * ks.len(),
{
    let count = le32(word_of(ks.len() as i32));
    let body = keys_bytes(ks);
    let s = pre + count + body + post;
    let at = pre.len() as int;
    lemma_keys_read(ks);
    lemma_get32_le32(pre, word_of(ks.len() as i32), body + post);
    assert(s =~= pre + count + (body + post));
    lemma_word_int(ks.len() as i32, 0);
    let got = keys_at::<K>(s, at + 4, ks.len());
    assert forall|i: int| 0 <= i < ks.len() implies got[i] == ks[i] by {
        lemma_key_window::<K>(s, at + 4 + 8 * i, body, 8 * i, pre + count, post);
        assert(keys_at::<K>(body, 0, ks.len())[i] == ks[i]);
    }
    assert(got =~= ks);
}

/// A header reads back as it is.
pub proof fn lemma_header_roundtrip(pre: Seq<u8>, h: HeaderView, post: Seq<u8>)
    requires
        terminable(h.emote_name),
    ensures
        decode_header(pre + header_bytes(h) + post, pre.len() as int) == Ok::<_, BinaryFault>(
            (h, (pre.len() + header_bytes(h).len()) as int),
        ),
{
    let front = header_front(h);
    let name = cstr_bytes(h.emote_name);
    let back = header_back(h);
    let s = pre + header_bytes(h) + post;
    let at = pre.len() as int;
    lemma_widths(h.version, word_of(h.base_priority));
    lemma_widths(h.sub_version, h.duration.bits);
    lemma_widths(0, h.loop_in_point.bits);
    lemma_widths(0, h.loop_out_point.bits);
    lemma_widths(0, word_of(h.looped));
    lemma_widths(0, h.ease_in_duration.bits);
    lemma_widths(0, h.ease_out_duration.bits);
    lemma_widths(0, h.hand_pose);
    assert(front.len() == 12);
    assert(back.len() == 24);
    lemma_split3(pre, front, name, back, post);
    // the fixed fields before the name
    lemma_get16_window(s, front, 0, pre, name + back + post);
    lemma_get16_window(s, front, 2, pre, name + back + post);
    lemma_get32_window(s, front, 4, pre, name + back + post);
    lemma_get32_window(s, front, 8, pre, name + back + post);
    lemma_get16_le16(Seq::empty(), h.version, le16(h.sub_version) + le32(word_of(h.base_priority)) + scalar_bytes(h.duration));
    assert(front =~= Seq::<u8>::empty() + le16(h.version) + (le16(h.sub_version) + le32(
        word_of(h.base_priority),
    ) + scalar_bytes(h.duration)));
    lemma_get16_le16(le16(h.version), h.sub_version, le32(word_of(h.base_priority)) + scalar_bytes(h.duration));
    assert(front =~= le16(h.version) + le16(h.sub_version) + (le32(word_of(h.base_priority))
        + scalar_bytes(h.duration)));
    lemma_get32_le32(le16(h.version) + le16(h.sub_version), word_of(h.base_priority), scalar_bytes(h.duration));
    lemma_get32_le32(le16(h.version) + le16(h.sub_version) + le32(word_of(h.base_priority)), h.duration.bits, Seq::empty());
    assert(front =~= le16(h.version) + le16(h.sub_version) + le32(word_of(h.base_priority))
        + le32(h.duration.bits) + Seq::<u8>::empty());
    lemma_word_int(h.base_priority, 0);
    // the name
    lemma_cstr_roundtrip(pre + front, h.emote_name, back + post);
    let m = at + 12 + name.len();
    // the fixed fields behind the name
    lemma_get32_window(s, back, 0, pre + front + name, post);
    lemma_get32_window(s, back, 4, pre + front + name, post);
    lemma_get32_window(s, back, 8, pre + front + name, post);
    lemma_get32_window(s, back, 12, pre + front + name, post);
    lemma_get32_window(s, back, 16, pre + front + name, post);
    lemma_get32_window(s, back, 20, pre + front + name, post);
    let f0 = scalar_bytes(h.loop_in_point);
    let f1 = scalar_bytes(h.loop_out_point);
    let f2 = le32(word_of(h.looped));
    let f3 = scalar_bytes(h.ease_in_duration);
    let f4 = scalar_bytes(h.ease_out_duration);
    let f5 = le32(h.hand_pose);
    lemma_get32_le32(Seq::empty(), h.loop_in_point.bits, f1 + f2 + f3 + f4 + f5);
    assert(back =~= Seq::<u8>::empty() + f0 + (f1 + f2 + f3 + f4 + f5));
    lemma_get32_le32(f0, h.loop_out_point.bits, f2 + f3 + f4 + f5);
    assert(back =~= f0 + f1 + (f2 + f3 + f4 + f5));
    lemma_get32_le32(f0 + f1, word_of(h.looped), f3 + f4 + f5);
    assert(back =~= f0 + f1 + f2 + (f3 + f4 + f5));
    lemma_get32_le32(f0 + f1 + f2, h.ease_in_duration.bits, f4 + f5);
    assert(back =~= f0 + f1 + f2 + f3 + (f4 + f5));
    lemma_get32_le32(f0 + f1 + f2 + f3, h.ease_out_duration.bits, f5);
    lemma_get32_le32(f0 + f1 + f2 + f3 + f4, h.hand_pose, Seq::empty());
    assert(back =~= f0 + f1 + f2 + f3 + f4 + f5 + Seq::<u8>::empty());
    lemma_word_int(h.looped, 0);
}


/// Regrouping the six parts of a joint.
proof fn lemma_split_joint(
    pre: Seq<u8>,
    name: Seq<u8>,
    prio: Seq<u8>,
    rc: Seq<u8>,
    rk: Seq<u8>,
    pc: Seq<u8>,
    pk: Seq<u8>,
    post: Seq<u8>,
)
    ensures
        ({
            let s = pre + (name + prio + rc + rk + pc + pk) + post;
            &&& s == pre + name + (prio + rc + rk + pc + pk + post)
            &&& s == (pre + name) + prio + (rc + rk + pc + pk + post)
            &&& s == (pre + name + prio) + rc + rk + (pc + pk + post)
            &&& s == (pre + name + prio + rc + rk) + pc + pk + post
            &&& s.len() == pre.len() + name.len() + prio.len() + rc.len() + rk.len() + pc.len()
                + pk.len() + post.len()
            &&& (name + prio + rc + rk + pc + pk).len() == name.len() + prio.len() + rc.len()
                + rk.len() + pc.len() + pk.len()
        }),
{
    let s = pre + (name + prio + rc + rk + pc + pk) + post;
    assert(s =~= pre + name + (prio + rc + rk + pc + pk + post));
    assert(s =~= (pre + name) + prio + (rc + rk + pc + pk + post));
    assert(s =~= (pre + name + prio) + rc + rk + (pc + pk + post));
    assert(s =~= (pre + name + prio + rc + rk) + pc + pk + post);
}

/// A joint reads back as it is.
pub proof fn lemma_joint_roundtrip(pre: Seq<u8>, j: StoredJoint, post: Seq<u8>)
    requires
        joint_encodable(j),
        terminable(j.name),
    ensures
        decode_joint(pre + joint_bytes(j) + post, pre.len() as int) == Ok::<_, BinaryFault>(
            (j, (pre.len() + joint_bytes(j).len()) as int),
        ),
{
    let name = cstr_bytes(j.name);
    let prio = le32(word_of(j.priority));
    let rc = le32(word_of(j.rotation_keys.len() as i32));
    let rk = keys_bytes(j.rotation_keys);
    let pc = le32(word_of(j.position_keys.len() as i32));
    let pk = keys_bytes(j.position_keys);
    let s = pre + joint_bytes(j) + post;
    let at = pre.len() as int;
    lemma_split_joint(pre, name, prio, rc, rk, pc, pk, post);
    lemma_cstr_roundtrip(pre, j.name, prio + rc + rk + pc + pk + post);
    lemma_get32_le32(pre + name, word_of(j.priority), rc + rk + pc + pk + post);
    lemma_widths(0, word_of(j.rotation_keys.len() as i32));
    lemma_widths(0, word_of(j.position_keys.len() as i32));
    lemma_word_int(j.priority, 0);
    lemma_keys_roundtrip::<RotationKey<Quantized>>(pre + name + prio, j.rotation_keys, pc + pk + post);
    lemma_keys_roundtrip::<PositionKey<Quantized>>(
        pre + name + prio + rc + rk,
        j.position_keys,
        post,
    );
    let n = at + name.len();
    assert(decode_cstr(s, at) == Ok::<_, BinaryFault>((j.name, n)));
    assert(int_of(get32(s, n)) == j.priority);
    let m = n + 8 + 8 * j.rotation_keys.len();
    assert(decode_keys::<RotationKey<Quantized>>(s, n + 4) == Ok::<_, BinaryFault>(
        (j.rotation_keys, m),
    ));
    assert(decode_keys::<PositionKey<Quantized>>(s, m) == Ok::<_, BinaryFault>(
        (j.position_keys, m + 4 + 8 * j.position_keys.len()),
    ));
    assert(n + 4 <= s.len());
    assert(m + 4 + 8 * j.position_keys.len() == pre.len() + joint_bytes(j).len());
    let got = JointView {
        name: j.name,
        priority: int_of(get32(s, n)),
        rotation_keys: j.rotation_keys,
        position_keys: j.position_keys,
    };
    assert(got == j);
}

/// Joints written one after the other read back as they are.
pub proof fn lemma_joints_roundtrip(pre: Seq<u8>, js: Seq<StoredJoint>, post: Seq<u8>)
    requires
        forall|i: int| 0 <= i < js.len() ==> joint_encodable(#[trigger] js[i]) && terminable(js[i].name),
    ensures
        decode_joints(pre + joints_bytes(js) + post, pre.len() as int, js.len()) == Ok::<
            _,
            BinaryFault,
        >((js, (pre.len() + joints_bytes(js).len()) as int)),
    decreases js.len(),
{
    let s = pre + joints_bytes(js) + post;
    let at = pre.len() as int;
    if js.len() > 0 {
        let init = js.drop_last();
        let last = js.last();
        let bi = joints_bytes(init);
        let bl = joint_bytes(last);
        assert forall|i: int| 0 <= i < init.len() implies joint_encodable(#[trigger] init[i])
            && terminable(init[i].name) by {
            assert(init[i] == js[i]);
        }
        assert(joint_encodable(last) && terminable(last.name)) by {
            assert(js[js.len() - 1] == last);
        }
        lemma_joints_roundtrip(pre, init, bl + post);
        lemma_joint_roundtrip(pre + bi, last, post);
        lemma_split2(pre, bi, bl, post);
        assert(joints_bytes(js) == bi + bl);
        assert(init.push(last) =~= js);
        let count = js.len();
        assert(init.len() == (count - 1) as nat);
        assert(decode_joints(s, at, (count - 1) as nat) == Ok::<_, BinaryFault>(
            (init, at + bi.len()),
        ));
        assert(decode_joint(s, at + bi.len()) == Ok::<_, BinaryFault>(
            (last, at + bi.len() + bl.len()),
        ));
    } else {
        assert(joints_bytes(js) =~= Seq::<u8>::empty());
        assert(js =~= Seq::<StoredJoint>::empty());
    }
}

proof fn lemma_offset_read(o: Offset)
    ensures
        offset_bytes(o).len() == 12,
        offset_at(offset_bytes(o), 0) == o,
{
    let b = offset_bytes(o);
    let x = scalar_bytes(o.x);
    let y = scalar_bytes(o.y);
    let z = scalar_bytes(o.z);
    lemma_get32_le32(Seq::empty(), o.x.bits, y + z);
    assert(b =~= Seq::<u8>::empty() + x + (y + z));
    lemma_get32_le32(x, o.y.bits, z);
    lemma_get32_le32(x + y, o.z.bits, Seq::empty());
    assert(b =~= x + y + z + Seq::<u8>::empty());
}

proof fn lemma_offset_window(s: Seq<u8>, at: int, body: Seq<u8>, pre: Seq<u8>, post: Seq<u8>)
    requires
        s == pre + body + post,
        at == pre.len(),
        body.len() == 12,
    ensures
        offset_at(s, at) == offset_at(body, 0),
{
    lemma_get32_window(s, body, 0, pre, post);
    lemma_get32_window(s, body, 4, pre, post);
    lemma_get32_window(s, body, 8, pre, post);
}

proof fn lemma_scalar_window(s: Seq<u8>, x: Scalar, pre: Seq<u8>, post: Seq<u8>)
    requires
        s == pre + scalar_bytes(x) + post,
    ensures
        scalar_at(s, pre.len() as int) == x,
{
    lemma_get32_le32(pre, x.bits, post);
}

/// A constraint reads back as it is.
pub proof fn lemma_constraint_read(c: ConstraintView)
    requires
        fits(c.source_volume, 16),
        fits(c.target_volume, 16),
    ensures
        constraint_bytes(c).len() == 86,
        constraint_at(constraint_bytes(c), 0) == c,
{
    let b = constraint_bytes(c);
    let f0 = seq![c.chain_length, c.constraint_type];
    let f1 = fixed_bytes(c.source_volume, 16);
    let f2 = offset_bytes(c.source_offset);
    let f3 = fixed_bytes(c.target_volume, 16);
    let f4 = offset_bytes(c.target_offset);
    let f5 = offset_bytes(c.target_dir);
    let f6 = scalar_bytes(c.ease_in_start);
    let f7 = scalar_bytes(c.ease_in_stop);
    let f8 = scalar_bytes(c.ease_out_start);
    let f9 = scalar_bytes(c.ease_out_stop);
    lemma_fixed_roundtrip(c.source_volume, 16);
    lemma_fixed_roundtrip(c.target_volume, 16);
    lemma_offset_read(c.source_offset);
    lemma_offset_read(c.target_offset);
    lemma_offset_read(c.target_dir);
    lemma_widths(0, c.ease_in_start.bits);
    lemma_widths(0, c.ease_in_stop.bits);
    lemma_widths(0, c.ease_out_start.bits);
    lemma_widths(0, c.ease_out_stop.bits);
    assert(b.len() == 86);
    assert(b[0] == c.chain_length);
    assert(b[1] == c.constraint_type);
    assert(b.subrange(2, 18) =~= f1);
    assert(b.subrange(30, 46) =~= f3);
    assert(b =~= (f0 + f1) + f2 + (f3 + f4 + f5 + f6 + f7 + f8 + f9));
    lemma_offset_window(b, 18, f2, f0 + f1, f3 + f4 + f5 + f6 + f7 + f8 + f9);
    assert(b =~= (f0 + f1 + f2 + f3) + f4 + (f5 + f6 + f7 + f8 + f9));
    lemma_offset_window(b, 46, f4, f0 + f1 + f2 + f3, f5 + f6 + f7 + f8 + f9);
    assert(b =~= (f0 + f1 + f2 + f3 + f4) + f5 + (f6 + f7 + f8 + f9));
    lemma_offset_window(b, 58, f5, f0 + f1 + f2 + f3 + f4, f6 + f7 + f8 + f9);
    assert(b =~= (f0 + f1 + f2 + f3 + f4 + f5) + f6 + (f7 + f8 + f9));
    lemma_scalar_window(b, c.ease_in_start, f0 + f1 + f2 + f3 + f4 + f5, f7 + f8 + f9);
    assert(b =~= (f0 + f1 + f2 + f3 + f4 + f5 + f6) + f7 + (f8 + f9));
    lemma_scalar_window(b, c.ease_in_stop, f0 + f1 + f2 + f3 + f4 + f5 + f6, f8 + f9);
    assert(b =~= (f0 + f1 + f2 + f3 + f4 + f5 + f6 + f7) + f8 + f9);
    lemma_scalar_window(b, c.ease_out_start, f0 + f1 + f2 + f3 + f4 + f5 + f6 + f7, f9);
    assert(b =~= (f0 + f1 + f2 + f3 + f4 + f5 + f6 + f7 + f8) + f9 + Seq::<u8>::empty());
    lemma_scalar_window(
        b,
        c.ease_out_stop,
        f0 + f1 + f2 + f3 + f4 + f5 + f6 + f7 + f8,
        Seq::empty(),
    );
}

/// A constraint read at `at` is the constraint read at the start of its own
/// bytes.
proof fn lemma_constraint_window(s: Seq<u8>, at: int, body: Seq<u8>, pre: Seq<u8>, post: Seq<u8>)
    requires
        s == pre + body + post,
        at == pre.len(),
        body.len() == 86,
    ensures
        constraint_at(s, at) == constraint_at(body, 0),
{
    assert(s[at] == body[0]);
    assert(s[at + 1] == body[1]);
    assert(s.subrange(at + 2, at + 18) =~= body.subrange(2, 18));
    assert(s.subrange(at + 30, at + 46) =~= body.subrange(30, 46));
    lemma_get32_window(s, body, 18, pre, post);
    lemma_get32_window(s, body, 22, pre, post);
    lemma_get32_window(s, body, 26, pre, post);
    lemma_get32_window(s, body, 46, pre, post);
    lemma_get32_window(s, body, 50, pre, post);
    lemma_get32_window(s, body, 54, pre, post);
    lemma_get32_window(s, body, 58, pre, post);
    lemma_get32_window(s, body, 62, pre, post);
    lemma_get32_window(s, body, 66, pre, post);
    lemma_get32_window(s, body, 70, pre, post);
    lemma_get32_window(s, body, 74, pre, post);
    lemma_get32_window(s, body, 78, pre, post);
    lemma_get32_window(s, body, 82, pre, post);
}

/// A constraint reads back as it is wherever it stands.
proof fn lemma_constraint_at_end(pre: Seq<u8>, c: ConstraintView, post: Seq<u8>)
    requires
        fits(c.source_volume, 16),
        fits(c.target_volume, 16),
    ensures
        constraint_at(pre + constraint_bytes(c) + post, pre.len() as int) == c,
        constraint_bytes(c).len() == 86,
{
    lemma_constraint_read(c);
    lemma_constraint_window(
        pre + constraint_bytes(c) + post,
        pre.len() as int,
        constraint_bytes(c),
        pre,
        post,
    );
}

/// Constraints written one after the other read back as they are.
proof fn lemma_constraints_read(pre: Seq<u8>, cs: Seq<ConstraintView>, post: Seq<u8>)
    requires
        forall|i: int|
            0 <= i < cs.len() ==> fits((#[trigger] cs[i]).source_volume, 16) && fits(
                cs[i].target_volume,
                16,
            ),
    ensures
        constraints_bytes(cs).len() == 86 * cs.len(),
        constraints_at(pre + constraints_bytes(cs) + post, pre.len() as int, cs.len()) == cs,
    decreases cs.len(),
{
    let s = pre + constraints_bytes(cs) + post;
    let at = pre.len() as int;
    if cs.len() > 0 {
        let init = cs.drop_last();
        let last = cs.last();
        let bi = constraints_bytes(init);
        let bl = constraint_bytes(last);
        assert forall|i: int| 0 <= i < init.len() implies fits(
            (#[trigger] init[i]).source_volume,
            16,
        ) && fits(init[i].target_volume, 16) by {
            assert(init[i] == cs[i]);
        }
        assert(fits(last.source_volume, 16) && fits(last.target_volume, 16)) by {
            assert(cs[cs.len() - 1] == last);
        }
        lemma_constraints_read(pre, init, bl + post);
        lemma_constraint_at_end(pre + bi, last, post);
        lemma_split2(pre, bi, bl, post);
        assert(constraints_bytes(cs) == bi + bl);
        let got = constraints_at(s, at, cs.len());
        let was = constraints_at(s, at, init.len());
        assert(was == init);
        assert forall|i: int| 0 <= i < cs.len() implies got[i] == cs[i] by {
            if i < init.len() {
                assert(got[i] == was[i]);
                assert(init[i] == cs[i]);
            } else {
                assert(at + 86 * i == (pre + bi).len());
            }
        }
        assert(got =~= cs);
    } else {
        assert(constraints_bytes(cs) =~= Seq::<u8>::empty());
        assert(constraints_at(s, at, 0) =~= cs);
    }
}

/// A list of constraints behind its count reads back as it is.
proof fn lemma_constraints_roundtrip(pre: Seq<u8>, cs: Seq<ConstraintView>, post: Seq<u8>)
    requires
        cs.len() <= i32::MAX,
        forall|i: int|
            0 <= i < cs.len() ==> fits((#[trigger] cs[i]).source_volume, 16) && fits(
                cs[i].target_volume,
                16,
            ),
    ensures
        decode_constraints(
            pre + le32(word_of(cs.len() as i32)) + constraints_bytes(cs) + post,
            pre.len() as int,
        ) == Ok::<_, BinaryFault>((cs, (pre.len() + 4 + 86 * cs.len()) as int)),
        constraints_bytes(cs).len() == 86 * cs.len(),
{
    let count = le32(word_of(cs.len() as i32));
    let body = constraints_bytes(cs);
    let s = pre + count + body + post;
    lemma_get32_le32(pre, word_of(cs.len() as i32), body + post);
    assert(s =~= pre + count + (body + post));
    lemma_word_int(cs.len() as i32, 0);
    lemma_constraints_read(pre + count, cs, post);
}

/// Regrouping the five parts of an animation.
proof fn lemma_split_animation(
    h: Seq<u8>,
    jc: Seq<u8>,
    js: Seq<u8>,
    cc: Seq<u8>,
    cs: Seq<u8>,
    post: Seq<u8>,
)
    ensures
        ({
            let s = (h + jc + js + cc + cs) + post;
            &&& s == Seq::<u8>::empty() + h + (jc + js + cc + cs + post)
            &&& s == h + jc + (js + cc + cs + post)
            &&& s == (h + jc) + js + (cc + cs + post)
            &&& s == (h + jc + js) + cc + cs + post
            &&& s.len() == h.len() + jc.len() + js.len() + cc.len() + cs.len() + post.len()
            &&& (h + jc + js + cc + cs).len() == h.len() + jc.len() + js.len() + cc.len()
                + cs.len()
        }),
{
    let s = (h + jc + js + cc + cs) + post;
    assert(s =~= Seq::<u8>::empty() + h + (jc + js + cc + cs + post));
    assert(s =~= h + jc + (js + cc + cs + post));
    assert(s =~= (h + jc) + js + (cc + cs + post));
    assert(s =~= (h + jc + js) + cc + cs + post);
}

/// An animation comes back from its bytes as it is, whatever follows them:
/// decoding undoes encoding.
pub proof fn lemma_animation_roundtrip(a: StoredView, post: Seq<u8>)
    requires
        storable(a),
    ensures
        decode_animation(animation_bytes(a) + post) == Ok::<_, BinaryFault>(
            (a, animation_bytes(a).len() as int),
        ),
{
    let h = header_bytes(a.header);
    let jc = le32(a.joints.len() as u32);
    let js = joints_bytes(a.joints);
    let cc = le32(word_of(a.constraints.len() as i32));
    let cs = constraints_bytes(a.constraints);
    let s = animation_bytes(a) + post;
    let none = Seq::<u8>::empty();
    lemma_split_animation(h, jc, js, cc, cs, post);
    lemma_header_roundtrip(none, a.header, jc + js + cc + cs + post);
    lemma_get32_le32(h, a.joints.len() as u32, js + cc + cs + post);
    lemma_get32_le32(h, word_of(a.constraints.len() as i32), post);
    assert forall|i: int| 0 <= i < a.joints.len() implies joint_encodable(#[trigger] a.joints[i])
        && terminable(a.joints[i].name) by {}
    lemma_joints_roundtrip(h + jc, a.joints, cc + cs + post);
    lemma_constraints_roundtrip(h + jc + js, a.constraints, post);
    let behind_header = h.len() as int;
    assert(decode_header(s, 0) == Ok::<_, BinaryFault>((a.header, behind_header)));
    assert(get32(s, behind_header) == a.joints.len());
    let behind_joints = behind_header + 4 + js.len();
    assert(decode_joints(s, behind_header + 4, a.joints.len()) == Ok::<_, BinaryFault>((a.joints, behind_joints)));
    assert(decode_constraints(s, behind_joints) == Ok::<_, BinaryFault>(
        (a.constraints, behind_joints + 4 + 86 * a.constraints.len()),
    ));
}


/// Where there is a zero byte there is a first one.
proof fn lemma_some_first_zero(s: Seq<u8>, at: int, j: int)
    requires
        at <= j < s.len(),
        s[j] == 0,
    ensures
        zero_from(s, at, first_zero(s, at)),
    decreases j - at,
{
    if exists|k: int| at <= k < j && s[k] == 0 {
        let k = choose|k: int| at <= k < j && s[k] == 0;
        lemma_some_first_zero(s, at, k);
    } else {
        assert(zero_from(s, at, j));
    }
}

/// Text that was read from a null-terminated field can stand in one.
proof fn lemma_cstr_terminable(s: Seq<u8>, at: int)
    requires
        0 <= at,
        decode_cstr(s, at) is Ok,
    ensures
        terminable(decode_cstr(s, at)->Ok_0.0),
{
    let j = choose|j: int| at <= j < s.len() && s[j] == 0;
    lemma_some_first_zero(s, at, j);
    let z = first_zero(s, at);
    let raw = s.subrange(at, z);
    decode_utf8_encode_utf8(raw);
    assert forall|i: int| 0 <= i < raw.len() implies raw[i] != 0 by {
        assert(raw[i] == s[at + i]);
    }
}

/// Text that was read from a field of `width` bytes fits in one.
proof fn lemma_lenient_fits(raw: Seq<u8>, width: nat)
    requires
        raw.len() == width,
    ensures
        fits(lenient_text(raw), width),
{
    let t = before_zero(raw);
    if has_zero_from(raw, 0) {
        let j = choose|j: int| 0 <= j < raw.len() && raw[j] == 0;
        lemma_some_first_zero(raw, 0, j);
    }
    assert(t.len() <= width);
    assert forall|i: int| 0 <= i < t.len() implies t[i] != 0 by {
        if has_zero_from(raw, 0) {
            assert(t[i] == raw[i]);
        } else {
            assert(raw[i] != 0);
        }
    }
    if valid_utf8(t) {
        decode_utf8_encode_utf8(t);
    } else {
        assert(encode_utf8(Seq::<char>::empty()).len() == 0);
    }
}

/// Joints that were read can be stored: as many as were asked for, each
/// with a name that can stand in its field and lists short enough for their
/// count fields.
proof fn lemma_decoded_joints(s: Seq<u8>, at: int, count: nat)
    requires
        0 <= at,
        decode_joints(s, at, count) is Ok,
    ensures
        ({
            let js = decode_joints(s, at, count)->Ok_0.0;
            &&& js.len() == count
            &&& at <= decode_joints(s, at, count)->Ok_0.1
            &&& forall|i: int|
                0 <= i < js.len() ==> joint_encodable(#[trigger] js[i]) && terminable(js[i].name)
        }),
    decreases count,
{
    if count > 0 {
        lemma_decoded_joints(s, at, (count - 1) as nat);
        let (init, m) = decode_joints(s, at, (count - 1) as nat)->Ok_0;
        lemma_cstr_terminable(s, m);
        let (j, next) = decode_joint(s, m)->Ok_0;
        let js = decode_joints(s, at, count)->Ok_0.0;
        assert(js == init.push(j));
        assert(joint_encodable(j));
        assert forall|i: int| 0 <= i < js.len() implies joint_encodable(#[trigger] js[i])
            && terminable(js[i].name) by {
            if i < init.len() {
                assert(js[i] == init[i]);
            }
        }
        lemma_cstr_bounds(s, m);
    }
}

/// A null-terminated field ends behind where it starts.
proof fn lemma_cstr_bounds(s: Seq<u8>, at: int)
    requires
        0 <= at,
        decode_cstr(s, at) is Ok,
    ensures
        at < decode_cstr(s, at)->Ok_0.1 <= s.len(),
{
    let j = choose|j: int| at <= j < s.len() && s[j] == 0;
    lemma_some_first_zero(s, at, j);
}

/// What was read can be stored: an animation that comes out of bytes goes
/// back into bytes and comes out of them again as it is.
pub proof fn lemma_decoded_is_storable(s: Seq<u8>)
    requires
        decode_animation(s) is Ok,
    ensures
        storable(decode_animation(s)->Ok_0.0),
{
    let a = decode_animation(s)->Ok_0.0;
    lemma_cstr_terminable(s, 12);
    lemma_cstr_bounds(s, 12);
    let (header, at) = decode_header(s, 0)->Ok_0;
    let count = get32(s, at) as nat;
    lemma_decoded_joints(s, at + 4, count);
    let (joints, b) = decode_joints(s, at + 4, count)->Ok_0;
    let cs = decode_constraints(s, b)->Ok_0.0;
    assert forall|i: int| 0 <= i < cs.len() implies fits((#[trigger] cs[i]).source_volume, 16)
        && fits(cs[i].target_volume, 16) by {
        let k = b + 4 + 86 * i;
        lemma_lenient_fits(s.subrange(k + 2, k + 18), 16);
        lemma_lenient_fits(s.subrange(k + 30, k + 46), 16);
    }
}

} // verus!
