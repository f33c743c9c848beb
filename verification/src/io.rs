use crate::error::BinaryFault;
use crate::model::Quantized;
use vstd::prelude::*;
use vstd::slice::{slice_subrange, slice_to_vec};
use vstd::utf8::*;

verus! {

/// The two bytes of `x`, low byte first.
#[verifier::opaque]
pub open spec fn le16(x: u16) -> Seq<u8> {
    seq![(x % 256) as u8, (x / 256) as u8]
}

/// The four bytes of `x`, low byte first.
#[verifier::opaque]
pub open spec fn le32(x: u32) -> Seq<u8> {
    seq![
        (x % 256) as u8,
        (x / 256 % 256) as u8,
        (x / 65536 % 256) as u8,
        (x / 16777216) as u8,
    ]
}

/// The 16-bit number whose low byte stands at `at`.
#[verifier::opaque]
pub open spec fn get16(s: Seq<u8>, at: int) -> u16 {
    (s[at] + 256 * s[at + 1]) as u16
}

/// The 32-bit number whose low byte stands at `at`.
#[verifier::opaque]
pub open spec fn get32(s: Seq<u8>, at: int) -> u32 {
    (s[at] + 256 * s[at + 1] + 65536 * s[at + 2] + 16777216 * s[at + 3]) as u32
}

/// The two's-complement word of a signed number.
pub open spec fn word_of(x: i32) -> u32 {
    if x >= 0 {
        x as u32
    } else {
        (x + 0x1_0000_0000) as u32
    }
}

/// The signed number of a two's-complement word.
pub open spec fn int_of(w: u32) -> i32 {
    if w < 0x8000_0000 {
        w as i32
    } else {
        (w - 0x1_0000_0000) as i32
    }
}

/// A 32-bit word and its signed reading determine each other.
pub proof fn lemma_word_int(x: i32, w: u32)
    ensures
        int_of(word_of(x)) == x,
        word_of(int_of(w)) == w,
{
}

/// Reading where a 16-bit number was written gives the number back.
pub proof fn lemma_get16_le16(pre: Seq<u8>, x: u16, post: Seq<u8>)
    ensures
        get16(pre + le16(x) + post, pre.len() as int) == x,
        le16(x).len() == 2,
{
    reveal(le16);
    reveal(get16);
    let s = pre + le16(x) + post;
    assert(s[pre.len() as int] == le16(x)[0]);
    assert(s[pre.len() as int + 1] == le16(x)[1]);
}

/// Reading where a 32-bit number was written gives the number back.
pub proof fn lemma_get32_le32(pre: Seq<u8>, x: u32, post: Seq<u8>)
    ensures
        get32(pre + le32(x) + post, pre.len() as int) == x,
        le32(x).len() == 4,
{
    reveal(le32);
    reveal(get32);
    let s = pre + le32(x) + post;
    assert(s[pre.len() as int] == le32(x)[0]);
    assert(s[pre.len() as int + 1] == le32(x)[1]);
    assert(s[pre.len() as int + 2] == le32(x)[2]);
    assert(s[pre.len() as int + 3] == le32(x)[3]);
}

/// A 16-bit number takes two bytes, a 32-bit number four.
pub proof fn lemma_widths(x: u16, y: u32)
    ensures
        le16(x).len() == 2,
        le32(y).len() == 4,
{
    reveal(le16);
    reveal(le32);
}

/// A 16-bit number read inside a stretch of bytes does not depend on what
/// stands around the stretch.
pub proof fn lemma_get16_window(s: Seq<u8>, body: Seq<u8>, k: int, pre: Seq<u8>, post: Seq<u8>)
    requires
        s == pre + body + post,
        0 <= k,
        k + 2 <= body.len(),
    ensures
        get16(s, pre.len() + k) == get16(body, k),
{
    reveal(get16);
    assert(s[pre.len() + k] == body[k]);
    assert(s[pre.len() + k + 1] == body[k + 1]);
}

/// A 32-bit number read inside a stretch of bytes does not depend on what
/// stands around the stretch.
pub proof fn lemma_get32_window(s: Seq<u8>, body: Seq<u8>, k: int, pre: Seq<u8>, post: Seq<u8>)
    requires
        s == pre + body + post,
        0 <= k,
        k + 4 <= body.len(),
    ensures
        get32(s, pre.len() + k) == get32(body, k),
{
    reveal(get32);
    assert(s[pre.len() + k] == body[k]);
    assert(s[pre.len() + k + 1] == body[k + 1]);
    assert(s[pre.len() + k + 2] == body[k + 2]);
    assert(s[pre.len() + k + 3] == body[k + 3]);
}

/// The byte at `pos`.
pub fn read_u8(bytes: &[u8], pos: usize) -> (r: Result<(u8, usize), BinaryFault>)
    ensures
        match r {
            Ok((v, next)) => pos + 1 <= bytes@.len() && v == bytes@[pos as int] && next == pos + 1,
            Err(e) => e == BinaryFault::Truncated && pos + 1 > bytes@.len(),
        },
{
    if pos >= bytes.len() {
        return Err(BinaryFault::Truncated);
    }
    Ok((bytes[pos], pos + 1))
}

/// The little-endian 16-bit number at `pos`.
pub fn read_u16(bytes: &[u8], pos: usize) -> (r: Result<(u16, usize), BinaryFault>)
    ensures
        match r {
            Ok((v, next)) => pos + 2 <= bytes@.len() && v == get16(bytes@, pos as int) && next
                == pos + 2,
            Err(e) => e == BinaryFault::Truncated && pos + 2 > bytes@.len(),
        },
{
    if bytes.len() < 2 || pos > bytes.len() - 2 {
        return Err(BinaryFault::Truncated);
    }
    let lo: u16 = bytes[pos] as u16;
    let hi: u16 = bytes[pos + 1] as u16;
    proof {
        reveal(get16);
    }
    Ok((lo + 256 * hi, pos + 2))
}

/// The little-endian 32-bit number at `pos`.
pub fn read_u32(bytes: &[u8], pos: usize) -> (r: Result<(u32, usize), BinaryFault>)
    ensures
        match r {
            Ok((v, next)) => pos + 4 <= bytes@.len() && v == get32(bytes@, pos as int) && next
                == pos + 4,
            Err(e) => e == BinaryFault::Truncated && pos + 4 > bytes@.len(),
        },
{
    if bytes.len() < 4 || pos > bytes.len() - 4 {
        return Err(BinaryFault::Truncated);
    }
    let b0: u32 = bytes[pos] as u32;
    let b1: u32 = bytes[pos + 1] as u32;
    let b2: u32 = bytes[pos + 2] as u32;
    let b3: u32 = bytes[pos + 3] as u32;
    proof {
        reveal(get32);
    }
    Ok((b0 + 256 * b1 + 65536 * b2 + 16777216 * b3, pos + 4))
}

/// The little-endian signed 32-bit number at `pos`.
pub fn read_i32(bytes: &[u8], pos: usize) -> (r: Result<(i32, usize), BinaryFault>)
    ensures
        match r {
            Ok((v, next)) => pos + 4 <= bytes@.len() && v == int_of(get32(bytes@, pos as int))
                && next == pos + 4,
            Err(e) => e == BinaryFault::Truncated && pos + 4 > bytes@.len(),
        },
{
    match read_u32(bytes, pos) {
        Ok((w, next)) => {
            let v: i32 = if w < 0x8000_0000 {
                w as i32
            } else {
                (w as i64 - 0x1_0000_0000) as i32
            };
            Ok((v, next))
        },
        Err(e) => Err(e),
    }
}

/// Appends one byte.
pub fn write_u8(out: &mut Vec<u8>, x: u8)
    ensures
        final(out)@ == old(out)@ + seq![x],
{
    out.push(x);
    assert(out@ =~= old(out)@ + seq![x]);
}

/// Appends `x`, low byte first.
pub fn write_u16(out: &mut Vec<u8>, x: u16)
    ensures
        final(out)@ == old(out)@ + le16(x),
{
    out.push((x % 256) as u8);
    out.push((x / 256) as u8);
    proof {
        reveal(le16);
    }
    assert(out@ =~= old(out)@ + le16(x));
}

/// Appends `x`, low byte first.
pub fn write_u32(out: &mut Vec<u8>, x: u32)
    ensures
        final(out)@ == old(out)@ + le32(x),
{
    out.push((x % 256) as u8);
    out.push((x / 256 % 256) as u8);
    out.push((x / 65536 % 256) as u8);
    out.push((x / 16777216) as u8);
    proof {
        reveal(le32);
    }
    assert(out@ =~= old(out)@ + le32(x));
}

/// Appends the two's-complement word of `x`, low byte first.
pub fn write_i32(out: &mut Vec<u8>, x: i32)
    ensures
        final(out)@ == old(out)@ + le32(word_of(x)),
{
    let w: u32 = if x >= 0 {
        x as u32
    } else {
        (x as i64 + 0x1_0000_0000) as u32
    };
    write_u32(out, w);
}

/// `i` is the place of the first zero byte at or behind `at`.
pub open spec fn zero_from(s: Seq<u8>, at: int, i: int) -> bool {
    &&& at <= i < s.len()
    &&& s[i] == 0
    &&& forall|k: int| at <= k < i ==> s[k] != 0
}

/// There is a zero byte at or behind `at`.
pub open spec fn has_zero_from(s: Seq<u8>, at: int) -> bool {
    exists|i: int| at <= i < s.len() && s[i] == 0
}

/// The place of the first zero byte at or behind `at`.
pub open spec fn first_zero(s: Seq<u8>, at: int) -> int
    recommends
        has_zero_from(s, at),
{
    choose|i: int| zero_from(s, at, i)
}

/// The first zero byte stands at one place only.
pub proof fn lemma_first_zero(s: Seq<u8>, at: int, i: int)
    requires
        zero_from(s, at, i),
    ensures
        has_zero_from(s, at),
        first_zero(s, at) == i,
{
    let j = first_zero(s, at);
    assert(zero_from(s, at, j));
}

/// A null-terminated text field at `at`: the text and the place behind its
/// terminator. Without a terminator the bytes are truncated; bytes that are
/// not UTF-8 are no text, and the failure says where they stand.
pub open spec fn decode_cstr(s: Seq<u8>, at: int) -> Result<(Seq<char>, int), BinaryFault> {
    if !has_zero_from(s, at) {
        Err(BinaryFault::Truncated)
    } else {
        let z = first_zero(s, at);
        let raw = s.subrange(at, z);
        if valid_utf8(raw) {
            Ok((decode_utf8(raw), z + 1))
        } else {
            Err(BinaryFault::InvalidText { start: at as usize, end: z as usize })
        }
    }
}

/// The bytes of a null-terminated text field.
pub open spec fn cstr_bytes(text: Seq<char>) -> Seq<u8> {
    encode_utf8(text).push(0u8)
}

/// The part of a fixed-width field that counts: what stands before the first
/// zero byte, or all of it.
pub open spec fn before_zero(raw: Seq<u8>) -> Seq<u8> {
    if has_zero_from(raw, 0) {
        raw.take(first_zero(raw, 0))
    } else {
        raw
    }
}

/// The text of a fixed-width field; bytes that are not UTF-8 read as no text
/// at all.
pub open spec fn lenient_text(raw: Seq<u8>) -> Seq<char> {
    let t = before_zero(raw);
    if valid_utf8(t) {
        decode_utf8(t)
    } else {
        Seq::empty()
    }
}

/// A text field of `width` bytes at `at`.
pub open spec fn decode_fixed(s: Seq<u8>, at: int, width: int) -> Result<(Seq<char>, int), BinaryFault> {
    if at + width > s.len() {
        Err(BinaryFault::Truncated)
    } else {
        Ok((lenient_text(s.subrange(at, at + width)), at + width))
    }
}

/// The bytes of a text field of `width` bytes: the text cut off at the width,
/// or filled up with zero bytes.
pub open spec fn fixed_bytes(text: Seq<char>, width: nat) -> Seq<u8> {
    let b = encode_utf8(text);
    Seq::new(
        width,
        |i: int|
            if i < b.len() {
                b[i]
            } else {
                0u8
            },
    )
}

/// Turns bytes into text with `String::from_utf8`: text comes back exactly
/// when the bytes are UTF-8, and its bytes are then the bytes given.
#[verifier::external_body]
fn text_from_utf8(raw: Vec<u8>) -> (r: Option<String>)
    ensures
        r is Some <==> valid_utf8(raw@),
        r matches Some(t) ==> encode_utf8(t@) == raw@,
{
    String::from_utf8(raw).ok()
}

/// The width of a fixed-width text field.
#[derive(Clone, Copy, Debug, Default)]
pub struct Args {
    pub count: usize,
}

/// The place of the first zero byte in `bytes[from..to]`, or `to`.
fn scan_zero(bytes: &[u8], from: usize, to: usize) -> (z: usize)
    requires
        from <= to <= bytes@.len(),
    ensures
        from <= z <= to,
        forall|k: int| from <= k < z ==> bytes@[k] != 0,
        z < to ==> bytes@[z as int] == 0,
{
    let mut z: usize = from;
    while z < to && bytes[z] != 0
        invariant
            from <= z <= to <= bytes@.len(),
            forall|k: int| from <= k < z ==> bytes@[k] != 0,
        decreases to - z,
    {
        z += 1;
    }
    z
}

/// Reads a null-terminated text field at `pos`.
///
/// This field is strict: bytes that are not UTF-8 are a failure. A field of
/// fixed width is lenient instead, see [`read_fixed_length_string`]. The two
/// differ on purpose.
pub fn read_null_terminated_string(bytes: &[u8], pos: usize) -> (r: Result<
    (String, usize),
    BinaryFault,
>)
    ensures
        match r {
            Ok((text, next)) => decode_cstr(bytes@, pos as int) == Ok::<_, BinaryFault>(
                (text@, next as int),
            ),
            Err(e) => decode_cstr(bytes@, pos as int) == Err::<(Seq<char>, int), _>(e),
        },
{
    if pos > bytes.len() {
        return Err(BinaryFault::Truncated);
    }
    let z = scan_zero(bytes, pos, bytes.len());
    if z >= bytes.len() {
        return Err(BinaryFault::Truncated);
    }
    proof {
        lemma_first_zero(bytes@, pos as int, z as int);
    }
    let raw = slice_to_vec(slice_subrange(bytes, pos, z));
    match text_from_utf8(raw) {
        Some(text) => {
            proof {
                encode_utf8_decode_utf8(text@);
            }
            Ok((text, z + 1))
        },
        None => Err(BinaryFault::InvalidText { start: pos, end: z }),
    }
}

/// Appends a null-terminated text field.
pub fn write_null_terminated_string(data: &String, out: &mut Vec<u8>)
    ensures
        final(out)@ == old(out)@ + cstr_bytes(data@),
{
    let raw = data.as_str().as_bytes();
    let mut i: usize = 0;
    while i < raw.len()
        invariant
            i <= raw@.len(),
            raw@ == encode_utf8(data@),
            out@ == old(out)@ + raw@.take(i as int),
        decreases raw.len() - i,
    {
        out.push(raw[i]);
        assert(raw@.take(i as int + 1) == raw@.take(i as int).push(raw@[i as int]));
        i += 1;
    }
    out.push(0);
    assert(raw@.take(i as int) == raw@);
    assert(out@ =~= old(out)@ + cstr_bytes(data@));
}

/// Reads a text field of `args.count` bytes at `pos`.
///
/// This field is lenient: what stands behind the first zero byte is not
/// looked at, and bytes that are not UTF-8 read as the empty text, without a
/// failure. A null-terminated field is strict instead, see
/// [`read_null_terminated_string`].
pub fn read_fixed_length_string(bytes: &[u8], pos: usize, args: Args) -> (r: Result<
    (String, usize),
    BinaryFault,
>)
    ensures
        match r {
            Ok((text, next)) => decode_fixed(bytes@, pos as int, args.count as int) == Ok::<
                _,
                BinaryFault,
            >((text@, next as int)),
            Err(e) => decode_fixed(bytes@, pos as int, args.count as int) == Err::<
                (Seq<char>, int),
                _,
            >(e),
        },
{
    if pos > bytes.len() || args.count > bytes.len() - pos {
        return Err(BinaryFault::Truncated);
    }
    let end = pos + args.count;
    let z = scan_zero(bytes, pos, end);
    let raw = slice_to_vec(slice_subrange(bytes, pos, z));
    proof {
        let field = bytes@.subrange(pos as int, end as int);
        if z < end {
            assert(field[z - pos] == 0);
            assert forall|k: int| 0 <= k < z - pos implies field[k] != 0 by {
                assert(bytes@[pos + k] != 0);
            }
            lemma_first_zero(field, 0, z - pos);
        } else {
            if has_zero_from(field, 0) {
                let i = choose|i: int| 0 <= i < field.len() && field[i] == 0;
                assert(bytes@[pos + i] != 0);
            }
        }
        assert(raw@ =~= before_zero(field));
    }
    match text_from_utf8(raw) {
        Some(text) => {
            proof {
                encode_utf8_decode_utf8(text@);
            }
            Ok((text, end))
        },
        None => {
            let text = String::new();
            Ok((text, end))
        },
    }
}

/// Appends a text field of `args.count` bytes.
pub fn write_fixed_length_string(data: &String, out: &mut Vec<u8>, args: Args)
    ensures
        final(out)@ == old(out)@ + fixed_bytes(data@, args.count as nat),
{
    let raw = data.as_str().as_bytes();
    let mut i: usize = 0;
    while i < args.count
        invariant
            i <= args.count,
            raw@ == encode_utf8(data@),
            out@ == old(out)@ + fixed_bytes(data@, args.count as nat).take(i as int),
        decreases args.count - i,
    {
        let b: u8 = if i < raw.len() {
            raw[i]
        } else {
            0
        };
        out.push(b);
        proof {
            let f = fixed_bytes(data@, args.count as nat);
            assert(f.take(i as int + 1) == f.take(i as int).push(f[i as int]));
            assert(out@ =~= old(out)@ + f.take(i as int + 1));
        }
        i += 1;
    }
    proof {
        let f = fixed_bytes(data@, args.count as nat);
        assert(f.take(i as int) == f);
    }
}


/// The bytes of the three codes of a keyframe value.
pub open spec fn codes_bytes(q: Quantized) -> Seq<u8> {
    le16(q.x) + le16(q.y) + le16(q.z)
}

/// The three codes of a keyframe value at `at`.
pub open spec fn codes_at(s: Seq<u8>, at: int) -> Quantized {
    Quantized { x: get16(s, at), y: get16(s, at + 2), z: get16(s, at + 4) }
}

/// Reads the three codes of a keyframe value.
pub fn read_codes(bytes: &[u8], pos: usize) -> (r: Result<(Quantized, usize), BinaryFault>)
    ensures
        match r {
            Ok((q, next)) => pos + 6 <= bytes@.len() && q == codes_at(bytes@, pos as int) && next
                == pos + 6,
            Err(e) => e == BinaryFault::Truncated && pos + 6 > bytes@.len(),
        },
{
    let (x, behind_x) = match read_u16(bytes, pos) {
        Ok(v) => v,
        Err(e) => return Err(e),
    };
    let (y, behind_y) = match read_u16(bytes, behind_x) {
        Ok(v) => v,
        Err(e) => return Err(e),
    };
    let (z, behind_z) = match read_u16(bytes, behind_y) {
        Ok(v) => v,
        Err(e) => return Err(e),
    };
    Ok((Quantized { x, y, z }, behind_z))
}

/// Reads the three codes of a rotation.
pub fn read_rot_quat(bytes: &[u8], pos: usize) -> (r: Result<(Quantized, usize), BinaryFault>)
    ensures
        match r {
            Ok((q, next)) => pos + 6 <= bytes@.len() && q == codes_at(bytes@, pos as int) && next
                == pos + 6,
            Err(e) => e == BinaryFault::Truncated && pos + 6 > bytes@.len(),
        },
{
    read_codes(bytes, pos)
}

/// Reads the three codes of a position.
pub fn read_pos_vec3(bytes: &[u8], pos: usize) -> (r: Result<(Quantized, usize), BinaryFault>)
    ensures
        match r {
            Ok((q, next)) => pos + 6 <= bytes@.len() && q == codes_at(bytes@, pos as int) && next
                == pos + 6,
            Err(e) => e == BinaryFault::Truncated && pos + 6 > bytes@.len(),
        },
{
    read_codes(bytes, pos)
}

/// Appends the three codes of a keyframe value.
pub fn write_codes(q: &Quantized, out: &mut Vec<u8>)
    ensures
        final(out)@ == old(out)@ + codes_bytes(*q),
{
    write_u16(out, q.x);
    write_u16(out, q.y);
    write_u16(out, q.z);
    assert(out@ =~= old(out)@ + codes_bytes(*q));
}

/// Appends the three codes of a rotation.
pub fn write_rot_quat(q: &Quantized, out: &mut Vec<u8>)
    ensures
        final(out)@ == old(out)@ + codes_bytes(*q),
{
    write_codes(q, out);
}

/// Appends the three codes of a position.
pub fn write_pos_vec3(q: &Quantized, out: &mut Vec<u8>)
    ensures
        final(out)@ == old(out)@ + codes_bytes(*q),
{
    write_codes(q, out);
}

} // verus!
