//! The value codec: each catalog entry's payload layout, decoded from and
//! encoded to bytes.

use vstd::prelude::*;
use vstd::utf8::*;
use vstd::slice::slice_subrange;
use vstd::slice::slice_to_vec;
use crate::bytes::{
    u16_at, u32_at, u64_at, i32_at, le16, le32, le64, read_u16, read_u32, read_i32, read_u64, push_u16, push_u32, push_u64,
    push_bytes,
};
use crate::resource::{AttributeType, AttributeValue, value_type};
use crate::text::{utf8_lossy, utf8_lossy_of, utf16_lossy, utf16_lossy_of, utf16_of, utf16_units};

verus! {

/// The largest payload that a reader decodes: one mebibyte.
pub const MAX_VALUE_SIZE: u32 = 0x10_0000;

/// The payload size of a fixed-layout type, or -1 where the declared length
/// decides.
pub open spec fn fixed_size(t: AttributeType) -> int {
    match t {
        AttributeType::Empty => 0,
        AttributeType::Byte | AttributeType::Bool | AttributeType::Int8 => 1,
        AttributeType::Short | AttributeType::UShort => 2,
        AttributeType::Int | AttributeType::UInt | AttributeType::Float => 4,
        AttributeType::Double | AttributeType::ULongLong | AttributeType::LongLong
        | AttributeType::Int64 => 8,
        AttributeType::IVec2 | AttributeType::Vec2 => 8,
        AttributeType::IVec3 | AttributeType::Vec3 => 12,
        AttributeType::IVec4 | AttributeType::Vec4 | AttributeType::Mat2 => 16,
        AttributeType::Mat3 => 36,
        AttributeType::Mat3x4 | AttributeType::Mat4x3 => 48,
        AttributeType::Mat4 => 64,
        AttributeType::UUID => 16,
        _ => -1,
    }
}

/// The number of payload bytes that a value of type `t` with declared length
/// `length` occupies.
pub open spec fn payload_len(t: AttributeType, length: int) -> int {
    if fixed_size(t) >= 0 {
        fixed_size(t)
    } else {
        length
    }
}

/// The payload size of a type with a declared length.
pub fn payload_size(t: AttributeType, length: u32) -> (r: u32)
    ensures
        r as int == payload_len(t, length as int),
{
    match t {
        AttributeType::Empty => 0,
        AttributeType::Byte | AttributeType::Bool | AttributeType::Int8 => 1,
        AttributeType::Short | AttributeType::UShort => 2,
        AttributeType::Int | AttributeType::UInt | AttributeType::Float => 4,
        AttributeType::Double | AttributeType::ULongLong | AttributeType::LongLong
        | AttributeType::Int64 => 8,
        AttributeType::IVec2 | AttributeType::Vec2 => 8,
        AttributeType::IVec3 | AttributeType::Vec3 => 12,
        AttributeType::IVec4 | AttributeType::Vec4 | AttributeType::Mat2 => 16,
        AttributeType::Mat3 => 36,
        AttributeType::Mat3x4 | AttributeType::Mat4x3 => 48,
        AttributeType::Mat4 => 64,
        AttributeType::UUID => 16,
        _ => length,
    }
}

/// A byte run without its trailing NUL bytes.
pub open spec fn strip_nuls(s: Seq<u8>) -> Seq<u8>
    decreases s.len(),
{
    if s.len() > 0 && s.last() == 0 {
        strip_nuls(s.drop_last())
    } else {
        s
    }
}

/// A run of code units without its trailing zero units.
pub open spec fn strip_zero_units(s: Seq<u16>) -> Seq<u16>
    decreases s.len(),
{
    if s.len() > 0 && s.last() == 0 {
        strip_zero_units(s.drop_last())
    } else {
        s
    }
}

/// The little-endian code units of a byte run (an odd last byte is ignored).
pub open spec fn units_of(p: Seq<u8>) -> Seq<u16> {
    Seq::new((p.len() / 2) as nat, |k: int| u16_at(p, 2 * k))
}

/// The 32-bit words stored one after another from the start of `p`.
pub open spec fn words_at(p: Seq<u8>, n: int) -> Seq<u32> {
    Seq::new(n as nat, |k: int| u32_at(p, 4 * k))
}

/// The bytes that store a run of 32-bit words.
pub open spec fn words_le(s: Seq<u32>) -> Seq<u8>
    decreases s.len(),
{
    if s.len() == 0 {
        Seq::empty()
    } else {
        words_le(s.drop_last()) + le32(s.last())
    }
}

/// The bit patterns of a run of signed words.
pub open spec fn unsigned_words(s: Seq<i32>) -> Seq<u32> {
    s.map_values(|x: i32| x as u32)
}

/// The sixteen stored bytes of a UUID: the first eight as they are, the last
/// eight reversed. The rearrangement is its own inverse.
pub open spec fn guid_swap(p: Seq<u8>) -> Seq<u8> {
    Seq::new(16, |k: int| if k < 8 { p[k] } else { p[23 - k] })
}

/// The bounds of the text inside a translated-string payload: it follows the
/// four header bytes and runs for the stored length, clipped to the payload.
pub open spec fn translated_end(p: Seq<u8>) -> int {
    if 4 + u16_at(p, 2) as int <= p.len() {
        4 + u16_at(p, 2) as int
    } else {
        p.len() as int
    }
}

/// `v` is what the payload `p` of type `t` decodes to.
pub open spec fn decodes_to(t: AttributeType, p: Seq<u8>, v: AttributeValue) -> bool {
    match t {
        AttributeType::Empty => v == AttributeValue::Empty,
        AttributeType::Byte => v == AttributeValue::Byte(p[0]),
        AttributeType::Short => v == AttributeValue::Short(u16_at(p, 0) as i16),
        AttributeType::UShort => v == AttributeValue::UShort(u16_at(p, 0)),
        AttributeType::Int => v == AttributeValue::Int(i32_at(p, 0)),
        AttributeType::UInt => v == AttributeValue::UInt(u32_at(p, 0)),
        AttributeType::Float => v == AttributeValue::Float(u32_at(p, 0)),
        AttributeType::Double => v == AttributeValue::Double(u64_at(p, 0)),
        AttributeType::IVec2 => v matches AttributeValue::IVec2(a) && unsigned_words(a@) == words_at(p, 2),
        AttributeType::IVec3 => v matches AttributeValue::IVec3(a) && unsigned_words(a@) == words_at(p, 3),
        AttributeType::IVec4 => v matches AttributeValue::IVec4(a) && unsigned_words(a@) == words_at(p, 4),
        AttributeType::Vec2 => v matches AttributeValue::Vec2(a) && a@ == words_at(p, 2),
        AttributeType::Vec3 => v matches AttributeValue::Vec3(a) && a@ == words_at(p, 3),
        AttributeType::Vec4 => v matches AttributeValue::Vec4(a) && a@ == words_at(p, 4),
        AttributeType::Mat2 => v matches AttributeValue::Mat2(a) && a@ == words_at(p, 4),
        AttributeType::Mat3 => v matches AttributeValue::Mat3(a) && a@ == words_at(p, 9),
        AttributeType::Mat3x4 => v matches AttributeValue::Mat3x4(a) && a@ == words_at(p, 12),
        AttributeType::Mat4x3 => v matches AttributeValue::Mat4x3(a) && a@ == words_at(p, 12),
        AttributeType::Mat4 => v matches AttributeValue::Mat4(a) && a@ == words_at(p, 16),
        AttributeType::Bool => v == AttributeValue::Bool(p[0] != 0),
        AttributeType::String => v matches AttributeValue::String(s) && s@ == utf8_lossy_of(strip_nuls(p)),
        AttributeType::Path => v matches AttributeValue::Path(s) && s@ == utf8_lossy_of(strip_nuls(p)),
        AttributeType::FixedString => v matches AttributeValue::FixedString(s) && s@ == utf8_lossy_of(strip_nuls(p)),
        AttributeType::LSString => v matches AttributeValue::LSString(s) && s@ == utf8_lossy_of(strip_nuls(p)),
        AttributeType::ULongLong => v == AttributeValue::ULongLong(u64_at(p, 0)),
        AttributeType::ScratchBuffer => v matches AttributeValue::ScratchBuffer(b) && b@ == p,
        AttributeType::LongLong => v == AttributeValue::LongLong(u64_at(p, 0) as i64),
        AttributeType::Int8 => v == AttributeValue::Int8(p[0] as i8),
        AttributeType::TranslatedString => v matches AttributeValue::TranslatedString { value, handle }
            && translated_parts(p, value@, handle@),
        AttributeType::WString => v matches AttributeValue::WString(s)
            && s@ == utf16_lossy_of(strip_zero_units(units_of(p))),
        AttributeType::LSWString => v matches AttributeValue::LSWString(s)
            && s@ == utf16_lossy_of(strip_zero_units(units_of(p))),
        AttributeType::UUID => v matches AttributeValue::UUID(a) && a@ == guid_swap(p),
        AttributeType::Int64 => v == AttributeValue::Int64(u64_at(p, 0) as i64),
        AttributeType::TranslatedFSString => v matches AttributeValue::TranslatedFSString { value, handle }
            && translated_parts(p, value@, handle@),
    }
}

/// The text and handle of a translated-string payload: both empty below four
/// bytes; otherwise the stored text and the NUL-padded handle after it.
pub open spec fn translated_parts(p: Seq<u8>, value: Seq<char>, handle: Seq<char>) -> bool {
    if p.len() < 4 {
        value.len() == 0 && handle.len() == 0
    } else {
        &&& value == utf8_lossy_of(p.subrange(4, translated_end(p)))
        &&& handle == utf8_lossy_of(strip_nuls(p.subrange(translated_end(p), p.len() as int)))
    }
}

/// The length of `p` once its trailing NUL bytes are dropped.
fn stripped_len(p: &[u8]) -> (n: usize)
    ensures
        n <= p@.len(),
        p@.subrange(0, n as int) == strip_nuls(p@),
{
    let mut n = p.len();
    assert(p@.subrange(0, n as int) =~= p@);
    while n > 0 && p[n - 1] == 0
        invariant
            n <= p@.len(),
            strip_nuls(p@.subrange(0, n as int)) == strip_nuls(p@),
        decreases n,
    {
        assert(p@.subrange(0, n as int).drop_last() =~= p@.subrange(0, n - 1));
        n = n - 1;
    }
    n
}

/// The text of a payload with its trailing NUL bytes dropped.
fn stripped_text(p: &[u8]) -> (r: String)
    ensures
        r@ == utf8_lossy_of(strip_nuls(p@)),
{
    let n = stripped_len(p);
    utf8_lossy(slice_subrange(p, 0, n))
}

/// The code units of a payload with trailing zero units dropped, decoded.
fn wide_text(p: &[u8]) -> (r: String)
    ensures
        r@ == utf16_lossy_of(strip_zero_units(units_of(p@))),
{
    let count = p.len() / 2;
    let mut units: Vec<u16> = Vec::new();
    let mut k: usize = 0;
    while k < count
        invariant
            p@.len() <= usize::MAX,
            count == p@.len() / 2,
            k <= count,
            units@ == units_of(p@).subrange(0, k as int),
        decreases count - k,
    {
        units.push(read_u16(p, 2 * k));
        assert(units@ =~= units_of(p@).subrange(0, k + 1));
        k = k + 1;
    }
    assert(units@ =~= units_of(p@));
    let mut n = units.len();
    assert(units@.subrange(0, n as int) =~= units@);
    while n > 0 && units[n - 1] == 0
        invariant
            n <= units@.len(),
            strip_zero_units(units@.subrange(0, n as int)) == strip_zero_units(units@),
        decreases n,
    {
        assert(units@.subrange(0, n as int).drop_last() =~= units@.subrange(0, n - 1));
        n = n - 1;
    }
    utf16_lossy(slice_subrange(units.as_slice(), 0, n))
}

/// The text and handle of a translated-string payload.
fn translated(p: &[u8]) -> (r: (String, String))
    ensures
        translated_parts(p@, r.0@, r.1@),
{
    if p.len() < 4 {
        return (String::new(), String::new());
    }
    let stored = read_u16(p, 2) as usize;
    let end = if stored <= p.len() - 4 { 4 + stored } else { p.len() };
    let value = utf8_lossy(slice_subrange(p, 4, end));
    let handle = stripped_text(slice_subrange(p, end, p.len()));
    (value, handle)
}

/// The `N` 32-bit words stored from the start of `p`.
fn read_words<const N: usize>(p: &[u8]) -> (r: [u32; N])
    requires
        4 * N <= p@.len(),
    ensures
        r@ == words_at(p@, N as int),
{
    let mut a = [0u32; N];
    let mut k: usize = 0;
    let _len = p.len();
    while k < N
        invariant
            p@.len() <= usize::MAX,
            4 * N <= p@.len(),
            k <= N,
            forall|j: int| 0 <= j < k ==> a@[j] == u32_at(p@, 4 * j),
            a@.len() == N,
        decreases N - k,
    {
        a[k] = read_u32(p, 4 * k);
        k = k + 1;
    }
    assert(a@ =~= words_at(p@, N as int));
    a
}

/// The `N` signed 32-bit words stored from the start of `p`.
fn read_signed_words<const N: usize>(p: &[u8]) -> (r: [i32; N])
    requires
        4 * N <= p@.len(),
    ensures
        unsigned_words(r@) == words_at(p@, N as int),
{
    let mut a = [0i32; N];
    let mut k: usize = 0;
    let _len = p.len();
    while k < N
        invariant
            p@.len() <= usize::MAX,
            4 * N <= p@.len(),
            k <= N,
            forall|j: int| 0 <= j < k ==> a@[j] as u32 == u32_at(p@, 4 * j),
            a@.len() == N,
        decreases N - k,
    {
        let x = read_u32(p, 4 * k);
        a[k] = #[verifier::truncate] (x as i32);
        assert((#[verifier::truncate] (x as i32)) as u32 == x) by (bit_vector);
        k = k + 1;
    }
    assert(unsigned_words(a@) =~= words_at(p@, N as int));
    a
}

/// Decodes the payload `p` of a value of type `t`. For a fixed-layout type
/// `p` holds exactly that layout's bytes; otherwise it is the declared run.
pub fn decode_value(p: &[u8], t: AttributeType) -> (r: AttributeValue)
    requires
        fixed_size(t) < 0 || p@.len() == fixed_size(t),
    ensures
        decodes_to(t, p@, r),
        value_type(r) == t,
{
    match t {
        AttributeType::Empty => AttributeValue::Empty,
        AttributeType::Byte => AttributeValue::Byte(p[0]),
        AttributeType::Short => AttributeValue::Short(read_u16(p, 0) as i16),
        AttributeType::UShort => AttributeValue::UShort(read_u16(p, 0)),
        AttributeType::Int => AttributeValue::Int(read_i32(p, 0)),
        AttributeType::UInt => AttributeValue::UInt(read_u32(p, 0)),
        AttributeType::Float => AttributeValue::Float(read_u32(p, 0)),
        AttributeType::Double => AttributeValue::Double(read_u64(p, 0)),
        AttributeType::IVec2 => AttributeValue::IVec2(read_signed_words::<2>(p)),
        AttributeType::IVec3 => AttributeValue::IVec3(read_signed_words::<3>(p)),
        AttributeType::IVec4 => AttributeValue::IVec4(read_signed_words::<4>(p)),
        AttributeType::Vec2 => AttributeValue::Vec2(read_words::<2>(p)),
        AttributeType::Vec3 => AttributeValue::Vec3(read_words::<3>(p)),
        AttributeType::Vec4 => AttributeValue::Vec4(read_words::<4>(p)),
        AttributeType::Mat2 => AttributeValue::Mat2(read_words::<4>(p)),
        AttributeType::Mat3 => AttributeValue::Mat3(read_words::<9>(p)),
        AttributeType::Mat3x4 => AttributeValue::Mat3x4(read_words::<12>(p)),
        AttributeType::Mat4x3 => AttributeValue::Mat4x3(read_words::<12>(p)),
        AttributeType::Mat4 => AttributeValue::Mat4(read_words::<16>(p)),
        AttributeType::Bool => AttributeValue::Bool(p[0] != 0),
        AttributeType::String => AttributeValue::String(stripped_text(p)),
        AttributeType::Path => AttributeValue::Path(stripped_text(p)),
        AttributeType::FixedString => AttributeValue::FixedString(stripped_text(p)),
        AttributeType::LSString => AttributeValue::LSString(stripped_text(p)),
        AttributeType::ULongLong => AttributeValue::ULongLong(read_u64(p, 0)),
        AttributeType::ScratchBuffer => AttributeValue::ScratchBuffer(slice_to_vec(p)),
        AttributeType::LongLong => AttributeValue::LongLong(read_u64(p, 0) as i64),
        AttributeType::Int8 => AttributeValue::Int8(p[0] as i8),
        AttributeType::TranslatedString => {
            let (value, handle) = translated(p);
            AttributeValue::TranslatedString { value, handle }
        },
        AttributeType::WString => AttributeValue::WString(wide_text(p)),
        AttributeType::LSWString => AttributeValue::LSWString(wide_text(p)),
        AttributeType::UUID => {
            let mut a = [0u8; 16];
            let mut k: usize = 0;
            while k < 16
                invariant
                    p@.len() == 16,
                    k <= 16,
                    a@.len() == 16,
                    forall|j: int| 0 <= j < k ==> a@[j] == guid_swap(p@)[j],
                decreases 16 - k,
            {
                a[k] = if k < 8 { p[k] } else { p[23 - k] };
                k = k + 1;
            }
            assert(a@ =~= guid_swap(p@));
            AttributeValue::UUID(a)
        },
        AttributeType::Int64 => AttributeValue::Int64(read_u64(p, 0) as i64),
        AttributeType::TranslatedFSString => {
            let (value, handle) = translated(p);
            AttributeValue::TranslatedFSString { value, handle }
        },
    }
}


/// The bytes that store a run of 16-bit code units.
pub open spec fn units_le(s: Seq<u16>) -> Seq<u8>
    decreases s.len(),
{
    if s.len() == 0 {
        Seq::empty()
    } else {
        units_le(s.drop_last()) + le16(s.last())
    }
}

/// The header and text of a translated string: a zero version tag, the text's
/// byte length, the text, then the handle.
pub open spec fn translated_bytes(value: Seq<char>, handle: Seq<char>) -> Seq<u8> {
    le16(0) + le16(encode_utf8(value).len() as u16) + encode_utf8(value) + encode_utf8(handle)
}

/// The payload bytes that store a value.
pub open spec fn value_bytes(v: AttributeValue) -> Seq<u8> {
    match v {
        AttributeValue::Empty => Seq::empty(),
        AttributeValue::Byte(x) => seq![x],
        AttributeValue::Short(x) => le16(x as u16),
        AttributeValue::UShort(x) => le16(x),
        AttributeValue::Int(x) => le32(x as u32),
        AttributeValue::UInt(x) => le32(x),
        AttributeValue::Float(x) => le32(x),
        AttributeValue::Double(x) => le64(x),
        AttributeValue::IVec2(a) => words_le(unsigned_words(a@)),
        AttributeValue::IVec3(a) => words_le(unsigned_words(a@)),
        AttributeValue::IVec4(a) => words_le(unsigned_words(a@)),
        AttributeValue::Vec2(a) => words_le(a@),
        AttributeValue::Vec3(a) => words_le(a@),
        AttributeValue::Vec4(a) => words_le(a@),
        AttributeValue::Mat2(a) => words_le(a@),
        AttributeValue::Mat3(a) => words_le(a@),
        AttributeValue::Mat3x4(a) => words_le(a@),
        AttributeValue::Mat4x3(a) => words_le(a@),
        AttributeValue::Mat4(a) => words_le(a@),
        AttributeValue::Bool(b) => seq![if b { 1u8 } else { 0u8 }],
        AttributeValue::String(s) => encode_utf8(s@),
        AttributeValue::Path(s) => encode_utf8(s@),
        AttributeValue::FixedString(s) => encode_utf8(s@),
        AttributeValue::LSString(s) => encode_utf8(s@),
        AttributeValue::ULongLong(x) => le64(x),
        AttributeValue::ScratchBuffer(b) => b@,
        AttributeValue::LongLong(x) => le64(x as u64),
        AttributeValue::Int8(x) => seq![x as u8],
        AttributeValue::TranslatedString { value, handle } => translated_bytes(value@, handle@),
        AttributeValue::WString(s) => units_le(utf16_of(s@)),
        AttributeValue::LSWString(s) => units_le(utf16_of(s@)),
        AttributeValue::UUID(a) => guid_swap(a@),
        AttributeValue::Int64(x) => le64(x as u64),
        AttributeValue::TranslatedFSString { value, handle } => translated_bytes(value@, handle@),
    }
}

/// A value that the payload layout can store: a translated string's text
/// fits its 16-bit length field.
pub open spec fn encodable(v: AttributeValue) -> bool {
    match v {
        AttributeValue::TranslatedString { value, .. } => encode_utf8(value@).len() <= 0xffff,
        AttributeValue::TranslatedFSString { value, .. } => encode_utf8(value@).len() <= 0xffff,
        _ => true,
    }
}

pub fn push_words(out: &mut Vec<u8>, a: &[u32])
    ensures
        final(out)@ == old(out)@ + words_le(a@),
{
    let mut k: usize = 0;
    while k < a.len()
        invariant
            k <= a@.len(),
            out@ == old(out)@ + words_le(a@.subrange(0, k as int)),
        decreases a@.len() - k,
    {
        push_u32(out, a[k]);
        assert(a@.subrange(0, k + 1).drop_last() =~= a@.subrange(0, k as int));
        assert(out@ =~= old(out)@ + words_le(a@.subrange(0, k + 1)));
        k = k + 1;
    }
    assert(a@.subrange(0, a@.len() as int) =~= a@);
}

fn push_signed_words(out: &mut Vec<u8>, a: &[i32])
    ensures
        final(out)@ == old(out)@ + words_le(unsigned_words(a@)),
{
    let mut k: usize = 0;
    while k < a.len()
        invariant
            k <= a@.len(),
            out@ == old(out)@ + words_le(unsigned_words(a@.subrange(0, k as int))),
        decreases a@.len() - k,
    {
        push_u32(out, a[k] as u32);
        assert(unsigned_words(a@.subrange(0, k + 1)).drop_last() =~= unsigned_words(a@.subrange(0, k as int)));
        assert(out@ =~= old(out)@ + words_le(unsigned_words(a@.subrange(0, k + 1))));
        k = k + 1;
    }
    assert(a@.subrange(0, a@.len() as int) =~= a@);
}

fn push_units(out: &mut Vec<u8>, a: &[u16])
    ensures
        final(out)@ == old(out)@ + units_le(a@),
{
    let mut k: usize = 0;
    while k < a.len()
        invariant
            k <= a@.len(),
            out@ == old(out)@ + units_le(a@.subrange(0, k as int)),
        decreases a@.len() - k,
    {
        push_u16(out, a[k]);
        assert(a@.subrange(0, k + 1).drop_last() =~= a@.subrange(0, k as int));
        assert(out@ =~= old(out)@ + units_le(a@.subrange(0, k + 1)));
        k = k + 1;
    }
    assert(a@.subrange(0, a@.len() as int) =~= a@);
}

fn push_translated(out: &mut Vec<u8>, value: &String, handle: &String)
    requires
        encode_utf8(value@).len() <= 0xffff,
    ensures
        final(out)@ == old(out)@ + translated_bytes(value@, handle@),
{
    let vb = value.as_str().as_bytes();
    push_u16(out, 0);
    push_u16(out, vb.len() as u16);
    push_bytes(out, vb);
    push_bytes(out, handle.as_str().as_bytes());
    assert(final(out)@ =~= old(out)@ + translated_bytes(value@, handle@));
}

/// Appends the payload bytes of a value.
pub fn encode_value(out: &mut Vec<u8>, v: &AttributeValue)
    requires
        encodable(*v),
    ensures
        final(out)@ == old(out)@ + value_bytes(*v),
{
    match v {
        AttributeValue::Empty => {
            assert(final(out)@ =~= old(out)@ + value_bytes(*v));
        },
        AttributeValue::Byte(x) => {
            out.push(*x);
            assert(final(out)@ =~= old(out)@ + value_bytes(*v));
        },
        AttributeValue::Short(x) => push_u16(out, *x as u16),
        AttributeValue::UShort(x) => push_u16(out, *x),
        AttributeValue::Int(x) => push_u32(out, *x as u32),
        AttributeValue::UInt(x) => push_u32(out, *x),
        AttributeValue::Float(x) => push_u32(out, *x),
        AttributeValue::Double(x) => push_u64(out, *x),
        AttributeValue::IVec2(a) => push_signed_words(out, a.as_slice()),
        AttributeValue::IVec3(a) => push_signed_words(out, a.as_slice()),
        AttributeValue::IVec4(a) => push_signed_words(out, a.as_slice()),
        AttributeValue::Vec2(a) => push_words(out, a.as_slice()),
        AttributeValue::Vec3(a) => push_words(out, a.as_slice()),
        AttributeValue::Vec4(a) => push_words(out, a.as_slice()),
        AttributeValue::Mat2(a) => push_words(out, a.as_slice()),
        AttributeValue::Mat3(a) => push_words(out, a.as_slice()),
        AttributeValue::Mat3x4(a) => push_words(out, a.as_slice()),
        AttributeValue::Mat4x3(a) => push_words(out, a.as_slice()),
        AttributeValue::Mat4(a) => push_words(out, a.as_slice()),
        AttributeValue::Bool(b) => {
            out.push(if *b { 1u8 } else { 0u8 });
            assert(final(out)@ =~= old(out)@ + value_bytes(*v));
        },
        AttributeValue::String(s) | AttributeValue::Path(s) | AttributeValue::FixedString(s)
        | AttributeValue::LSString(s) => push_bytes(out, s.as_str().as_bytes()),
        AttributeValue::ULongLong(x) => push_u64(out, *x),
        AttributeValue::ScratchBuffer(b) => push_bytes(out, b.as_slice()),
        AttributeValue::LongLong(x) => push_u64(out, *x as u64),
        AttributeValue::Int8(x) => {
            out.push(*x as u8);
            assert(final(out)@ =~= old(out)@ + value_bytes(*v));
        },
        AttributeValue::TranslatedString { value, handle } => push_translated(out, value, handle),
        AttributeValue::WString(s) | AttributeValue::LSWString(s) => {
            let units = utf16_units(s.as_str());
            push_units(out, units.as_slice());
        },
        AttributeValue::UUID(a) => {
            let mut k: usize = 0;
            while k < 16
                invariant
                    k <= 16,
                    a@.len() == 16,
                    out@ == old(out)@ + guid_swap(a@).subrange(0, k as int),
                decreases 16 - k,
            {
                out.push(if k < 8 { a[k] } else { a[23 - k] });
                assert(out@ =~= old(out)@ + guid_swap(a@).subrange(0, k + 1));
                k = k + 1;
            }
            assert(guid_swap(a@).subrange(0, 16) =~= guid_swap(a@));
        },
        AttributeValue::Int64(x) => push_u64(out, *x as u64),
        AttributeValue::TranslatedFSString { value, handle } => push_translated(out, value, handle),
    }
}


/// The byte length of stored words, and where each word's bytes sit.
pub proof fn lemma_words_le(s: Seq<u32>)
    ensures
        words_le(s).len() == 4 * s.len(),
        forall|k: int| 0 <= k < s.len() ==> #[trigger] words_le(s).subrange(4 * k, 4 * k + 4) == le32(s[k]),
    decreases s.len(),
{
    if s.len() > 0 {
        lemma_words_le(s.drop_last());
        let w = words_le(s);
        let front = words_le(s.drop_last());
        assert forall|k: int| 0 <= k < s.len() implies #[trigger] w.subrange(4 * k, 4 * k + 4) == le32(s[k]) by {
            if k < s.len() - 1 {
                assert(w.subrange(4 * k, 4 * k + 4) =~= front.subrange(4 * k, 4 * k + 4));
            } else {
                assert(w.subrange(4 * k, 4 * k + 4) =~= le32(s.last()));
            }
        }
    }
}

/// Stored words read back as themselves.
pub proof fn lemma_words_read_back(s: Seq<u32>)
    ensures
        words_at(words_le(s), s.len() as int) == s,
{
    lemma_words_le(s);
    let w = words_le(s);
    assert forall|k: int| 0 <= k < s.len() implies words_at(w, s.len() as int)[k] == s[k] by {
        assert(w.subrange(4 * k, 4 * k + 4) == le32(s[k]));
        crate::bytes::lemma_le32(s[k], w, 4 * k);
    }
    assert(words_at(w, s.len() as int) =~= s);
}

/// Words read from a run and stored again give the same run.
pub proof fn lemma_words_store_back(p: Seq<u8>, n: int)
    requires
        0 <= n,
        p.len() == 4 * n,
    ensures
        words_le(words_at(p, n)) == p,
    decreases n,
{
    if n == 0 {
        assert(p =~= Seq::<u8>::empty());
    } else {
        let front = p.subrange(0, 4 * n - 4);
        lemma_words_store_back(front, n - 1);
        assert(words_at(p, n).drop_last() =~= words_at(front, n - 1));
        crate::bytes::lemma_u32_bytes(p, 4 * n - 4);
        assert(words_le(words_at(p, n)) =~= p);
    }
}

/// Signed words with equal bit patterns are equal.
pub proof fn lemma_unsigned_words_injective(a: Seq<i32>, b: Seq<i32>)
    requires
        unsigned_words(a) == unsigned_words(b),
    ensures
        a == b,
{
    assert(unsigned_words(a).len() == a.len() && unsigned_words(b).len() == b.len());
    assert forall|k: int| 0 <= k < a.len() implies a[k] == b[k] by {
        let (x, y) = (a[k], b[k]);
        assert(unsigned_words(a)[k] == x as u32);
        assert(unsigned_words(b)[k] == y as u32);
        assert((x as u32) == (y as u32) ==> x == y) by (bit_vector);
    }
    assert(a =~= b);
}

proof fn lemma_words_round_trip(a: Seq<u32>, c: Seq<u32>)
    requires
        c == words_at(words_le(a), a.len() as int),
    ensures
        c == a,
        words_le(a).len() == 4 * a.len(),
{
    lemma_words_le(a);
    lemma_words_read_back(a);
}

proof fn lemma_signed_words_round_trip(a: Seq<i32>, c: Seq<i32>)
    requires
        unsigned_words(c) == words_at(words_le(unsigned_words(a)), a.len() as int),
    ensures
        c == a,
        words_le(unsigned_words(a)).len() == 4 * a.len(),
{
    lemma_words_le(unsigned_words(a));
    lemma_words_read_back(unsigned_words(a));
    lemma_unsigned_words_injective(c, a);
}

/// The types whose payload has a fixed layout: the integers, floats, vectors,
/// matrices, booleans and UUIDs.
pub open spec fn is_fixed_layout(t: AttributeType) -> bool {
    fixed_size(t) >= 0
}

/// Encoding a fixed-layout value gives its layout's size, and decoding those
/// bytes gives the value back.
#[verifier::rlimit(100)]
pub proof fn lemma_value_round_trip(v: AttributeValue, w: AttributeValue)
    requires
        is_fixed_layout(value_type(v)),
        decodes_to(value_type(v), value_bytes(v), w),
    ensures
        value_bytes(v).len() == fixed_size(value_type(v)),
        w == v,
{
    let b = value_bytes(v);
    match v {
        AttributeValue::Short(x) => {
            assert(b.subrange(0, 2) =~= b);
            crate::bytes::lemma_le16(x as u16, b, 0);
            let y = u16_at(b, 0);
            assert(y as i16 == x) by (bit_vector)
                requires
                    y == x as u16,
            ;
        },
        AttributeValue::UShort(x) => {
            assert(b.subrange(0, 2) =~= b);
            crate::bytes::lemma_le16(x, b, 0);
        },
        AttributeValue::Int(x) => {
            assert(b.subrange(0, 4) =~= b);
            crate::bytes::lemma_le32(x as u32, b, 0);
            assert((x as u32) as i32 == x) by (bit_vector);
        },
        AttributeValue::UInt(x) => {
            assert(b.subrange(0, 4) =~= b);
            crate::bytes::lemma_le32(x, b, 0);
        },
        AttributeValue::Float(x) => {
            assert(b.subrange(0, 4) =~= b);
            crate::bytes::lemma_le32(x, b, 0);
        },
        AttributeValue::Double(x) => {
            assert(b.subrange(0, 8) =~= b);
            crate::bytes::lemma_le64(x, b, 0);
        },
        AttributeValue::ULongLong(x) => {
            assert(b.subrange(0, 8) =~= b);
            crate::bytes::lemma_le64(x, b, 0);
        },
        AttributeValue::LongLong(x) => {
            assert(b.subrange(0, 8) =~= b);
            crate::bytes::lemma_le64(x as u64, b, 0);
            assert((x as u64) as i64 == x) by (bit_vector);
        },
        AttributeValue::Int64(x) => {
            assert(b.subrange(0, 8) =~= b);
            crate::bytes::lemma_le64(x as u64, b, 0);
            assert((x as u64) as i64 == x) by (bit_vector);
        },
        AttributeValue::Int8(x) => {
            assert((x as u8) as i8 == x) by (bit_vector);
        },
        AttributeValue::UUID(a) => {
            assert(guid_swap(guid_swap(a@)) =~= a@);
            if let AttributeValue::UUID(c) = w {
                assert(c@ =~= a@);
                assert(c =~= a);
            }
        },
        AttributeValue::IVec2(a) => {
            if let AttributeValue::IVec2(c) = w {
                lemma_signed_words_round_trip(a@, c@);
                assert(c@ =~= a@);
                assert(c =~= a);
            }
        },
        AttributeValue::IVec3(a) => {
            if let AttributeValue::IVec3(c) = w {
                lemma_signed_words_round_trip(a@, c@);
                assert(c@ =~= a@);
                assert(c =~= a);
            }
        },
        AttributeValue::IVec4(a) => {
            if let AttributeValue::IVec4(c) = w {
                lemma_signed_words_round_trip(a@, c@);
                assert(c@ =~= a@);
                assert(c =~= a);
            }
        },
        AttributeValue::Vec2(a) => {
            if let AttributeValue::Vec2(c) = w {
                lemma_words_round_trip(a@, c@);
                assert(c@ =~= a@);
                assert(c =~= a);
            }
        },
        AttributeValue::Vec3(a) => {
            if let AttributeValue::Vec3(c) = w {
                lemma_words_round_trip(a@, c@);
                assert(c@ =~= a@);
                assert(c =~= a);
            }
        },
        AttributeValue::Vec4(a) => {
            if let AttributeValue::Vec4(c) = w {
                lemma_words_round_trip(a@, c@);
                assert(c@ =~= a@);
                assert(c =~= a);
            }
        },
        AttributeValue::Mat2(a) => {
            if let AttributeValue::Mat2(c) = w {
                lemma_words_round_trip(a@, c@);
                assert(c@ =~= a@);
                assert(c =~= a);
            }
        },
        AttributeValue::Mat3(a) => {
            if let AttributeValue::Mat3(c) = w {
                lemma_words_round_trip(a@, c@);
                assert(c@ =~= a@);
                assert(c =~= a);
            }
        },
        AttributeValue::Mat3x4(a) => {
            if let AttributeValue::Mat3x4(c) = w {
                lemma_words_round_trip(a@, c@);
                assert(c@ =~= a@);
                assert(c =~= a);
            }
        },
        AttributeValue::Mat4x3(a) => {
            if let AttributeValue::Mat4x3(c) = w {
                lemma_words_round_trip(a@, c@);
                assert(c@ =~= a@);
                assert(c =~= a);
            }
        },
        AttributeValue::Mat4(a) => {
            if let AttributeValue::Mat4(c) = w {
                lemma_words_round_trip(a@, c@);
                assert(c@ =~= a@);
                assert(c =~= a);
            }
        },
        AttributeValue::Byte(x) => {
            assert(b[0] == x);
        },
        AttributeValue::Bool(x) => {
            assert(b[0] == if x { 1u8 } else { 0u8 });
        },
        _ => {},
    }
}

/// A fixed-layout value takes its layout's size.
pub proof fn lemma_fixed_len(v: AttributeValue)
    requires
        is_fixed_layout(value_type(v)),
    ensures
        value_bytes(v).len() == fixed_size(value_type(v)),
{
    match v {
        AttributeValue::IVec2(a) => lemma_words_le(unsigned_words(a@)),
        AttributeValue::IVec3(a) => lemma_words_le(unsigned_words(a@)),
        AttributeValue::IVec4(a) => lemma_words_le(unsigned_words(a@)),
        AttributeValue::Vec2(a) => lemma_words_le(a@),
        AttributeValue::Vec3(a) => lemma_words_le(a@),
        AttributeValue::Vec4(a) => lemma_words_le(a@),
        AttributeValue::Mat2(a) => lemma_words_le(a@),
        AttributeValue::Mat3(a) => lemma_words_le(a@),
        AttributeValue::Mat3x4(a) => lemma_words_le(a@),
        AttributeValue::Mat4x3(a) => lemma_words_le(a@),
        AttributeValue::Mat4(a) => lemma_words_le(a@),
        _ => {},
    }
}

/// Decoding a fixed-layout payload and encoding the value gives the same
/// bytes; for a boolean, whose decoding maps every nonzero byte to true, this
/// holds of the bytes 0 and 1.
pub proof fn lemma_bytes_round_trip(t: AttributeType, p: Seq<u8>, v: AttributeValue)
    requires
        is_fixed_layout(t),
        p.len() == fixed_size(t),
        decodes_to(t, p, v),
        t == AttributeType::Bool ==> p[0] <= 1,
    ensures
        value_bytes(v) == p,
{
    match t {
        AttributeType::Empty => {
            assert(p =~= Seq::<u8>::empty());
        },
        AttributeType::Byte => {
            assert(value_bytes(v) =~= p);
        },
        AttributeType::Int8 => {
            let x = p[0];
            assert((x as i8) as u8 == x) by (bit_vector);
            assert(value_bytes(v) =~= p);
        },
        AttributeType::Bool => {
            assert(value_bytes(v) =~= p);
        },
        AttributeType::Short | AttributeType::UShort => {
            crate::bytes::lemma_u16_bytes(p, 0);
            assert(p.subrange(0, 2) =~= p);
            let x = u16_at(p, 0);
            assert((x as i16) as u16 == x) by (bit_vector);
        },
        AttributeType::Int | AttributeType::UInt | AttributeType::Float => {
            crate::bytes::lemma_u32_bytes(p, 0);
            assert(p.subrange(0, 4) =~= p);
            let x = u32_at(p, 0);
            assert((x as i32) as u32 == x) by (bit_vector);
        },
        AttributeType::Double | AttributeType::ULongLong | AttributeType::LongLong
        | AttributeType::Int64 => {
            crate::bytes::lemma_u64_bytes(p, 0);
            assert(p.subrange(0, 8) =~= p);
            let x = u64_at(p, 0);
            assert((x as i64) as u64 == x) by (bit_vector);
        },
        AttributeType::UUID => {
            assert(guid_swap(guid_swap(p)) =~= p);
        },
        _ => {
            lemma_words_store_back(p, p.len() as int / 4);
        },
    }
}

} // verus!
