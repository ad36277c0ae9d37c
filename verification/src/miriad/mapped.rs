//! The Rust types that map onto MIRIAD storage types, and how their values
//! are laid out in bytes (big-endian, packed).

use super::{MiriadFormatError, Type};
use crate::bytes::{
    be_u16, be_u32, be_u64, u16_be_bytes, u32_be_bytes, u64_be_bytes, read_be_i16, read_be_i32, read_be_i64,
    write_be_i16, write_be_i32, write_be_i64, lemma_be_i16_round_trip, lemma_be_i32_round_trip,
    lemma_be_i64_round_trip,
};
use crate::text::{string_from_utf8, string_from_utf8_lossy, utf8_lossy};
use vstd::utf8::{decode_utf8, encode_utf8, valid_utf8, encode_utf8_decode_utf8, encode_utf8_valid_utf8};
use vstd::prelude::*;

verus! {

/// A Rust type that maps onto a type of the MIRIAD data format.
///
/// Values are described by their deep views; `spec_decode` and
/// `spec_encode` give the byte layout.
pub trait MiriadMappedType: Sized + DeepView {
    /// The MIRIAD type to which this Rust type maps.
    spec fn spec_type() -> Type;

    /// Whether `decode_buf_into_vec` accepts these bytes.
    spec fn decodable(buf: Seq<u8>) -> bool;

    /// The values that these bytes hold.
    spec fn spec_decode(buf: Seq<u8>) -> Seq<<Self as DeepView>::V>;

    /// Whether reading values from these bytes succeeds.
    spec fn readable(buf: Seq<u8>) -> bool;

    /// The error of a read that does not succeed.
    spec fn read_error() -> MiriadFormatError;

    /// Whether `encode_values_into_vec` accepts these values.
    spec fn encodable(values: Seq<<Self as DeepView>::V>) -> bool;

    /// The bytes of these values.
    spec fn spec_encode(values: Seq<<Self as DeepView>::V>) -> Seq<u8>;

    /// How many MIRIAD elements these values make.
    spec fn spec_count(values: Seq<<Self as DeepView>::V>) -> int;

    /// The MIRIAD type to which this Rust type maps.
    fn miriad_type() -> (t: Type)
        ensures
            t == Self::spec_type(),
    ;

    /// Read all the values that a buffer holds.
    fn vec_from_miriad_bytes(buf: &[u8]) -> (res: Result<Vec<Self>, MiriadFormatError>)
        ensures
            Self::readable(buf@) ==> (res matches Ok(v) && v.deep_view() == Self::spec_decode(buf@)),
            !Self::readable(buf@) ==> res == Err::<Vec<Self>, MiriadFormatError>(Self::read_error()),
    ;

    /// Replace the contents of `vec` with the values that `buf` holds.
    fn decode_buf_into_vec(buf: &[u8], vec: &mut Vec<Self>)
        requires
            Self::decodable(buf@),
        ensures
            final(vec).deep_view() == Self::spec_decode(buf@),
    ;

    /// Replace the contents of `vec` with the bytes of `values`.
    fn encode_values_into_vec(values: &[Self], vec: &mut Vec<u8>)
        requires
            Self::encodable(values.deep_view()),
        ensures
            final(vec)@ == Self::spec_encode(values.deep_view()),
    ;

    /// How many MIRIAD elements `values` make.
    fn get_miriad_count(values: &[Self]) -> (n: usize)
        requires
            Self::encodable(values.deep_view()),
        ensures
            n == Self::spec_count(values.deep_view()),
    ;

    /// A whole number of values of the MIRIAD type can be decoded.
    proof fn lemma_decodable(buf: Seq<u8>)
        requires
            buf.len() % Self::spec_type().spec_size() == 0,
        ensures
            Self::decodable(buf),
    ;

    /// Encoded values take as many bytes as their count of elements times
    /// the size of the MIRIAD type.
    proof fn lemma_encoded_len(values: Seq<<Self as DeepView>::V>)
        requires
            Self::encodable(values),
        ensures
            Self::spec_encode(values).len() == Self::spec_count(values) * Self::spec_type().spec_size(),
    ;

    /// Encoding values and decoding the bytes gives the values back; the
    /// bytes are also read back without error.
    proof fn lemma_round_trip(values: Seq<<Self as DeepView>::V>)
        requires
            Self::encodable(values),
        ensures
            Self::decodable(Self::spec_encode(values)),
            Self::readable(Self::spec_encode(values)),
            Self::spec_decode(Self::spec_encode(values)) == values,
    ;
}

impl MiriadMappedType for u8 {
    open spec fn spec_type() -> Type {
        Type::Binary
    }

    open spec fn decodable(buf: Seq<u8>) -> bool {
        true
    }

    open spec fn spec_decode(buf: Seq<u8>) -> Seq<u8> {
        buf
    }

    open spec fn readable(buf: Seq<u8>) -> bool {
        true
    }

    open spec fn read_error() -> MiriadFormatError {
        MiriadFormatError::UnexpectedEof
    }

    open spec fn encodable(values: Seq<u8>) -> bool {
        true
    }

    open spec fn spec_encode(values: Seq<u8>) -> Seq<u8> {
        values
    }

    open spec fn spec_count(values: Seq<u8>) -> int {
        values.len() as int
    }

    fn miriad_type() -> (t: Type) {
        Type::Binary
    }

    fn vec_from_miriad_bytes(buf: &[u8]) -> (res: Result<Vec<u8>, MiriadFormatError>) {
        let v = vstd::slice::slice_to_vec(buf);
        assert(v.deep_view() =~= v@);
        Ok(v)
    }

    fn decode_buf_into_vec(buf: &[u8], vec: &mut Vec<u8>) {
        *vec = vstd::slice::slice_to_vec(buf);
        assert(vec.deep_view() =~= vec@);
    }

    fn encode_values_into_vec(values: &[u8], vec: &mut Vec<u8>) {
        *vec = vstd::slice::slice_to_vec(values);
        assert(values.deep_view() =~= values@);
    }

    fn get_miriad_count(values: &[u8]) -> (n: usize) {
        assert(values.deep_view().len() == values@.len());
        values.len()
    }

    proof fn lemma_decodable(buf: Seq<u8>) {
    }

    proof fn lemma_encoded_len(values: Seq<<Self as DeepView>::V>) {
    }

    proof fn lemma_round_trip(values: Seq<u8>) {
    }
}

/// The 16-bit values of a byte buffer, two bytes each, big-endian.
pub open spec fn decode_i16s(buf: Seq<u8>) -> Seq<i16> {
    Seq::new(buf.len() / 2, |i: int| be_u16(buf[2 * i], buf[2 * i + 1]) as i16)
}

/// The bytes of 16-bit values, two each, big-endian.
pub open spec fn encode_i16s(values: Seq<i16>) -> Seq<u8> {
    Seq::new(2 * values.len(), |j: int| u16_be_bytes(values[j / 2] as u16)[j % 2])
}

proof fn lemma_encode_i16s_push(values: Seq<i16>, v: i16)
    ensures
        encode_i16s(values.push(v)) == encode_i16s(values) + u16_be_bytes(v as u16),
{
    let a = encode_i16s(values.push(v));
    let b = encode_i16s(values) + u16_be_bytes(v as u16);
    assert forall|j: int| 0 <= j < a.len() implies a[j] == b[j] by {
        if j < 2 * values.len() {
            assert(j / 2 < values.len());
            assert(values.push(v)[j / 2] == values[j / 2]);
        } else {
            assert(j / 2 == values.len());
        }
    }
    assert(a =~= b);
}

impl MiriadMappedType for i16 {
    open spec fn spec_type() -> Type {
        Type::Int16
    }

    open spec fn decodable(buf: Seq<u8>) -> bool {
        buf.len() % 2 == 0
    }

    open spec fn spec_decode(buf: Seq<u8>) -> Seq<i16> {
        decode_i16s(buf)
    }

    open spec fn readable(buf: Seq<u8>) -> bool {
        buf.len() % 2 == 0
    }

    open spec fn read_error() -> MiriadFormatError {
        MiriadFormatError::UnexpectedEof
    }

    open spec fn encodable(values: Seq<i16>) -> bool {
        true
    }

    open spec fn spec_encode(values: Seq<i16>) -> Seq<u8> {
        encode_i16s(values)
    }

    open spec fn spec_count(values: Seq<i16>) -> int {
        values.len() as int
    }

    fn miriad_type() -> (t: Type) {
        Type::Int16
    }

    fn vec_from_miriad_bytes(buf: &[u8]) -> (res: Result<Vec<i16>, MiriadFormatError>) {
        if buf.len() % 2 != 0 {
            return Err(MiriadFormatError::UnexpectedEof);
        }
        let mut v: Vec<i16> = Vec::new();
        Self::decode_buf_into_vec(buf, &mut v);
        Ok(v)
    }

    fn decode_buf_into_vec(buf: &[u8], vec: &mut Vec<i16>) {
        let mut out: Vec<i16> = Vec::new();
        let n = buf.len() / 2;
        let mut k: usize = 0;
        while k < n
            invariant
                n == buf.len() / 2,
                k <= n,
                out@ == decode_i16s(buf@).take(k as int),
            decreases n - k,
        {
            let x = read_be_i16(vstd::slice::slice_subrange(buf, 2 * k, 2 * k + 2));
            out.push(x);
            k += 1;
            assert(out@ =~= decode_i16s(buf@).take(k as int));
        }
        assert(decode_i16s(buf@).take(n as int) =~= decode_i16s(buf@));
        *vec = out;
        assert(vec.deep_view() =~= vec@);
    }

    fn encode_values_into_vec(values: &[i16], vec: &mut Vec<u8>) {
        let mut out: Vec<u8> = Vec::new();
        let mut k: usize = 0;
        assert(values.deep_view() =~= values@);
        assert(encode_i16s(values@.take(0)) =~= Seq::<u8>::empty());
        while k < values.len()
            invariant
                k <= values.len(),
                out@ == encode_i16s(values@.take(k as int)),
            decreases values.len() - k,
        {
            let b = write_be_i16(values[k]);
            out.push(b[0]);
            out.push(b[1]);
            proof {
                lemma_encode_i16s_push(values@.take(k as int), values@[k as int]);
                assert(values@.take(k + 1) =~= values@.take(k as int).push(values@[k as int]));
            }
            k += 1;
            assert(out@ =~= encode_i16s(values@.take(k as int)));
        }
        assert(values@.take(values.len() as int) =~= values@);
        *vec = out;
    }

    fn get_miriad_count(values: &[i16]) -> (n: usize) {
        assert(values.deep_view().len() == values@.len());
        values.len()
    }

    proof fn lemma_decodable(buf: Seq<u8>) {
    }

    proof fn lemma_encoded_len(values: Seq<<Self as DeepView>::V>) {
    }

    proof fn lemma_round_trip(values: Seq<i16>) {
        let e = encode_i16s(values);
        let d = decode_i16s(e);
        assert forall|i: int| 0 <= i < values.len() implies d[i] == values[i] by {
            let bs = u16_be_bytes(values[i] as u16);
            assert(e[2 * i] == bs[0]);
            assert(e[2 * i + 1] == bs[1]);
            lemma_be_i16_round_trip(values[i]);
        }
        assert(d =~= values);
    }
}

proof fn lemma_i8_u8(x: i8)
    ensures
        (x as u8) as i8 == x,
{
    assert((x as u8) as i8 == x) by (bit_vector);
}

impl MiriadMappedType for i8 {
    open spec fn spec_type() -> Type {
        Type::Int8
    }

    open spec fn decodable(buf: Seq<u8>) -> bool {
        true
    }

    open spec fn spec_decode(buf: Seq<u8>) -> Seq<i8> {
        buf.map_values(|b: u8| b as i8)
    }

    open spec fn readable(buf: Seq<u8>) -> bool {
        true
    }

    open spec fn read_error() -> MiriadFormatError {
        MiriadFormatError::UnexpectedEof
    }

    open spec fn encodable(values: Seq<i8>) -> bool {
        true
    }

    open spec fn spec_encode(values: Seq<i8>) -> Seq<u8> {
        values.map_values(|x: i8| x as u8)
    }

    open spec fn spec_count(values: Seq<i8>) -> int {
        values.len() as int
    }

    fn miriad_type() -> (t: Type) {
        Type::Int8
    }

    fn vec_from_miriad_bytes(buf: &[u8]) -> (res: Result<Vec<i8>, MiriadFormatError>) {
        let mut v: Vec<i8> = Vec::new();
        Self::decode_buf_into_vec(buf, &mut v);
        Ok(v)
    }

    fn decode_buf_into_vec(buf: &[u8], vec: &mut Vec<i8>) {
        let mut out: Vec<i8> = Vec::new();
        let mut k: usize = 0;
        while k < buf.len()
            invariant
                k <= buf.len(),
                out@ == buf@.take(k as int).map_values(|b: u8| b as i8),
            decreases buf.len() - k,
        {
            out.push(buf[k] as i8);
            k += 1;
            assert(out@ =~= buf@.take(k as int).map_values(|b: u8| b as i8));
        }
        assert(buf@.take(buf.len() as int) =~= buf@);
        *vec = out;
        assert(vec.deep_view() =~= vec@);
    }

    fn encode_values_into_vec(values: &[i8], vec: &mut Vec<u8>) {
        let mut out: Vec<u8> = Vec::new();
        let mut k: usize = 0;
        assert(values.deep_view() =~= values@);
        while k < values.len()
            invariant
                k <= values.len(),
                out@ == values@.take(k as int).map_values(|x: i8| x as u8),
            decreases values.len() - k,
        {
            out.push(values[k] as u8);
            k += 1;
            assert(out@ =~= values@.take(k as int).map_values(|x: i8| x as u8));
        }
        assert(values@.take(values.len() as int) =~= values@);
        *vec = out;
    }

    fn get_miriad_count(values: &[i8]) -> (n: usize) {
        assert(values.deep_view().len() == values@.len());
        values.len()
    }

    proof fn lemma_decodable(buf: Seq<u8>) {
    }

    proof fn lemma_encoded_len(values: Seq<<Self as DeepView>::V>) {
    }

    proof fn lemma_round_trip(values: Seq<i8>) {
        let d = Self::spec_decode(Self::spec_encode(values));
        assert forall|i: int| 0 <= i < values.len() implies d[i] == values[i] by {
            lemma_i8_u8(values[i]);
        }
        assert(d =~= values);
    }
}

/// The 32-bit values of a byte buffer, four bytes each, big-endian.
pub open spec fn decode_i32s(buf: Seq<u8>) -> Seq<i32> {
    Seq::new(buf.len() / 4, |i: int| be_u32(buf[4 * i], buf[4 * i + 1], buf[4 * i + 2], buf[4 * i + 3]) as i32)
}

/// The bytes of 32-bit values, four each, big-endian.
pub open spec fn encode_i32s(values: Seq<i32>) -> Seq<u8> {
    Seq::new(4 * values.len(), |j: int| u32_be_bytes(values[j / 4] as u32)[j % 4])
}

/// Encoding one more `i32` appends its four big-endian bytes.
pub proof fn lemma_encode_i32s_push(values: Seq<i32>, v: i32)
    ensures
        encode_i32s(values.push(v)) == encode_i32s(values) + u32_be_bytes(v as u32),
{
    let a = encode_i32s(values.push(v));
    let b = encode_i32s(values) + u32_be_bytes(v as u32);
    assert forall|j: int| 0 <= j < a.len() implies a[j] == b[j] by {
        if j < 4 * values.len() {
            assert(j / 4 < values.len());
            assert(values.push(v)[j / 4] == values[j / 4]);
        } else {
            assert(j / 4 == values.len());
        }
    }
    assert(a =~= b);
}

impl MiriadMappedType for i32 {
    open spec fn spec_type() -> Type {
        Type::Int32
    }

    open spec fn decodable(buf: Seq<u8>) -> bool {
        buf.len() % 4 == 0
    }

    open spec fn spec_decode(buf: Seq<u8>) -> Seq<i32> {
        decode_i32s(buf)
    }

    open spec fn readable(buf: Seq<u8>) -> bool {
        buf.len() % 4 == 0
    }

    open spec fn read_error() -> MiriadFormatError {
        MiriadFormatError::UnexpectedEof
    }

    open spec fn encodable(values: Seq<i32>) -> bool {
        true
    }

    open spec fn spec_encode(values: Seq<i32>) -> Seq<u8> {
        encode_i32s(values)
    }

    open spec fn spec_count(values: Seq<i32>) -> int {
        values.len() as int
    }

    fn miriad_type() -> (t: Type) {
        Type::Int32
    }

    fn vec_from_miriad_bytes(buf: &[u8]) -> (res: Result<Vec<i32>, MiriadFormatError>) {
        if buf.len() % 4 != 0 {
            return Err(MiriadFormatError::UnexpectedEof);
        }
        let mut v: Vec<i32> = Vec::new();
        Self::decode_buf_into_vec(buf, &mut v);
        Ok(v)
    }

    fn decode_buf_into_vec(buf: &[u8], vec: &mut Vec<i32>) {
        let mut out: Vec<i32> = Vec::new();
        let n = buf.len() / 4;
        let mut k: usize = 0;
        while k < n
            invariant
                n == buf.len() / 4,
                k <= n,
                out@ == decode_i32s(buf@).take(k as int),
            decreases n - k,
        {
            let x = read_be_i32(vstd::slice::slice_subrange(buf, 4 * k, 4 * k + 4));
            out.push(x);
            k += 1;
            assert(out@ =~= decode_i32s(buf@).take(k as int));
        }
        assert(decode_i32s(buf@).take(n as int) =~= decode_i32s(buf@));
        *vec = out;
        assert(vec.deep_view() =~= vec@);
    }

    fn encode_values_into_vec(values: &[i32], vec: &mut Vec<u8>) {
        let mut out: Vec<u8> = Vec::new();
        let mut k: usize = 0;
        assert(values.deep_view() =~= values@);
        assert(encode_i32s(values@.take(0)) =~= Seq::<u8>::empty());
        while k < values.len()
            invariant
                k <= values.len(),
                out@ == encode_i32s(values@.take(k as int)),
            decreases values.len() - k,
        {
            let b = write_be_i32(values[k]);
            out.push(b[0]);
            out.push(b[1]);
            out.push(b[2]);
            out.push(b[3]);
            proof {
                lemma_encode_i32s_push(values@.take(k as int), values@[k as int]);
                assert(values@.take(k + 1) =~= values@.take(k as int).push(values@[k as int]));
            }
            k += 1;
            assert(out@ =~= encode_i32s(values@.take(k as int)));
        }
        assert(values@.take(values.len() as int) =~= values@);
        *vec = out;
    }

    fn get_miriad_count(values: &[i32]) -> (n: usize) {
        assert(values.deep_view().len() == values@.len());
        values.len()
    }

    proof fn lemma_decodable(buf: Seq<u8>) {
    }

    proof fn lemma_encoded_len(values: Seq<<Self as DeepView>::V>) {
    }

    proof fn lemma_round_trip(values: Seq<i32>) {
        let e = encode_i32s(values);
        let d = decode_i32s(e);
        assert forall|i: int| 0 <= i < values.len() implies d[i] == values[i] by {
            let bs = u32_be_bytes(values[i] as u32);
            assert(e[4 * i] == bs[0]);
            assert(e[4 * i + 1] == bs[1]);
            assert(e[4 * i + 2] == bs[2]);
            assert(e[4 * i + 3] == bs[3]);
            lemma_be_i32_round_trip(values[i]);
        }
        assert(d =~= values);
    }
}

/// The 64-bit values of a byte buffer, eight bytes each, big-endian.
pub open spec fn decode_i64s(buf: Seq<u8>) -> Seq<i64> {
    Seq::new(buf.len() / 8, |i: int| be_u64(buf.subrange(8 * i, 8 * i + 8)) as i64)
}

/// The bytes of 64-bit values, eight each, big-endian.
pub open spec fn encode_i64s(values: Seq<i64>) -> Seq<u8> {
    Seq::new(8 * values.len(), |j: int| u64_be_bytes(values[j / 8] as u64)[j % 8])
}

proof fn lemma_encode_i64s_push(values: Seq<i64>, v: i64)
    ensures
        encode_i64s(values.push(v)) == encode_i64s(values) + u64_be_bytes(v as u64),
{
    let a = encode_i64s(values.push(v));
    let b = encode_i64s(values) + u64_be_bytes(v as u64);
    assert forall|j: int| 0 <= j < a.len() implies a[j] == b[j] by {
        if j < 8 * values.len() {
            assert(j / 8 < values.len());
            assert(values.push(v)[j / 8] == values[j / 8]);
        } else {
            assert(j / 8 == values.len());
        }
    }
    assert(a =~= b);
}

#[verifier::spinoff_prover]
proof fn lemma_i64_element(values: Seq<i64>, i: int)
    requires
        0 <= i < values.len(),
    ensures
        decode_i64s(encode_i64s(values))[i] == values[i],
{
    let e = encode_i64s(values);
    let bs = u64_be_bytes(values[i] as u64);
    assert forall|j: int| 0 <= j < 8 implies #[trigger] e.subrange(8 * i, 8 * i + 8)[j] == bs[j] by {
        assert((8 * i + j) / 8 == i && (8 * i + j) % 8 == j);
    }
    assert(e.subrange(8 * i, 8 * i + 8) =~= bs);
    lemma_be_i64_round_trip(values[i]);
}

impl MiriadMappedType for i64 {
    open spec fn spec_type() -> Type {
        Type::Int64
    }

    open spec fn decodable(buf: Seq<u8>) -> bool {
        buf.len() % 8 == 0
    }

    open spec fn spec_decode(buf: Seq<u8>) -> Seq<i64> {
        decode_i64s(buf)
    }

    open spec fn readable(buf: Seq<u8>) -> bool {
        buf.len() % 8 == 0
    }

    open spec fn read_error() -> MiriadFormatError {
        MiriadFormatError::UnexpectedEof
    }

    open spec fn encodable(values: Seq<i64>) -> bool {
        true
    }

    open spec fn spec_encode(values: Seq<i64>) -> Seq<u8> {
        encode_i64s(values)
    }

    open spec fn spec_count(values: Seq<i64>) -> int {
        values.len() as int
    }

    fn miriad_type() -> (t: Type) {
        Type::Int64
    }

    fn vec_from_miriad_bytes(buf: &[u8]) -> (res: Result<Vec<i64>, MiriadFormatError>) {
        if buf.len() % 8 != 0 {
            return Err(MiriadFormatError::UnexpectedEof);
        }
        let mut v: Vec<i64> = Vec::new();
        Self::decode_buf_into_vec(buf, &mut v);
        Ok(v)
    }

    fn decode_buf_into_vec(buf: &[u8], vec: &mut Vec<i64>) {
        let mut out: Vec<i64> = Vec::new();
        let n = buf.len() / 8;
        let mut k: usize = 0;
        while k < n
            invariant
                n == buf.len() / 8,
                k <= n,
                out@ == decode_i64s(buf@).take(k as int),
            decreases n - k,
        {
            let chunk = vstd::slice::slice_subrange(buf, 8 * k, 8 * k + 8);
            let x = read_be_i64(chunk);
            assert(chunk@ =~= buf@.subrange(8 * k, 8 * k + 8));
            out.push(x);
            k += 1;
            assert(out@ =~= decode_i64s(buf@).take(k as int));
        }
        assert(decode_i64s(buf@).take(n as int) =~= decode_i64s(buf@));
        *vec = out;
        assert(vec.deep_view() =~= vec@);
    }

    fn encode_values_into_vec(values: &[i64], vec: &mut Vec<u8>) {
        let mut out: Vec<u8> = Vec::new();
        let mut k: usize = 0;
        assert(values.deep_view() =~= values@);
        assert(encode_i64s(values@.take(0)) =~= Seq::<u8>::empty());
        while k < values.len()
            invariant
                k <= values.len(),
                out@ == encode_i64s(values@.take(k as int)),
            decreases values.len() - k,
        {
            let b = write_be_i64(values[k]);
            let ghost before = out@;
            let mut m: usize = 0;
            while m < 8
                invariant
                    m <= 8,
                    out@ == before + b@.take(m as int),
                decreases 8 - m,
            {
                out.push(b[m]);
                m += 1;
                assert(out@ =~= before + b@.take(m as int));
            }
            assert(b@.take(8) =~= b@);
            proof {
                lemma_encode_i64s_push(values@.take(k as int), values@[k as int]);
                assert(values@.take(k + 1) =~= values@.take(k as int).push(values@[k as int]));
            }
            k += 1;
            assert(out@ =~= encode_i64s(values@.take(k as int)));
        }
        assert(values@.take(values.len() as int) =~= values@);
        *vec = out;
    }

    fn get_miriad_count(values: &[i64]) -> (n: usize) {
        assert(values.deep_view().len() == values@.len());
        values.len()
    }

    proof fn lemma_decodable(buf: Seq<u8>) {
    }

    proof fn lemma_encoded_len(values: Seq<<Self as DeepView>::V>) {
    }

    proof fn lemma_round_trip(values: Seq<i64>) {
        let e = encode_i64s(values);
        let d = decode_i64s(e);
        assert forall|i: int| 0 <= i < values.len() implies d[i] == values[i] by {
            lemma_i64_element(values, i);
        }
        assert(d =~= values);
    }
}

impl MiriadMappedType for String {
    open spec fn spec_type() -> Type {
        Type::Text
    }

    open spec fn decodable(buf: Seq<u8>) -> bool {
        true
    }

    /// A single string: the text of the bytes, with invalid UTF-8
    /// sequences replaced.
    open spec fn spec_decode(buf: Seq<u8>) -> Seq<Seq<char>> {
        if valid_utf8(buf) {
            seq![decode_utf8(buf)]
        } else {
            seq![utf8_lossy(buf)]
        }
    }

    open spec fn readable(buf: Seq<u8>) -> bool {
        valid_utf8(buf)
    }

    open spec fn read_error() -> MiriadFormatError {
        MiriadFormatError::TextNotUtf8
    }

    /// Text is written one string at a time.
    open spec fn encodable(values: Seq<Seq<char>>) -> bool {
        values.len() == 1
    }

    open spec fn spec_encode(values: Seq<Seq<char>>) -> Seq<u8> {
        encode_utf8(values[0])
    }

    /// A string counts its bytes.
    open spec fn spec_count(values: Seq<Seq<char>>) -> int {
        encode_utf8(values[0]).len() as int
    }

    fn miriad_type() -> (t: Type) {
        Type::Text
    }

    fn vec_from_miriad_bytes(buf: &[u8]) -> (res: Result<Vec<String>, MiriadFormatError>) {
        match string_from_utf8(vstd::slice::slice_to_vec(buf)) {
            Some(s) => {
                let v = vec![s];
                assert(v.deep_view() =~= seq![decode_utf8(buf@)]);
                Ok(v)
            },
            None => Err(MiriadFormatError::TextNotUtf8),
        }
    }

    fn decode_buf_into_vec(buf: &[u8], vec: &mut Vec<String>) {
        let s = string_from_utf8_lossy(buf);
        *vec = vec![s];
        assert(vec.deep_view() =~= Self::spec_decode(buf@));
    }

    fn encode_values_into_vec(values: &[String], vec: &mut Vec<u8>) {
        let bytes = values[0].as_str().as_bytes();
        *vec = vstd::slice::slice_to_vec(bytes);
        assert(values.deep_view()[0] == values@[0]@);
    }

    fn get_miriad_count(values: &[String]) -> (n: usize) {
        assert(values.deep_view()[0] == values@[0]@);
        values[0].as_str().as_bytes().len()
    }

    proof fn lemma_decodable(buf: Seq<u8>) {
    }

    proof fn lemma_encoded_len(values: Seq<<Self as DeepView>::V>) {
    }

    proof fn lemma_round_trip(values: Seq<Seq<char>>) {
        encode_utf8_valid_utf8(values[0]);
        encode_utf8_decode_utf8(values[0]);
        assert(seq![values[0]] =~= values);
    }
}

} // verus!
