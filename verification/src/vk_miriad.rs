//! An early, minimal take on MIRIAD data sets: elementary types, item
//! descriptions and the fixed-size header record.

pub use crate::miriad::Type;
use vstd::prelude::*;

verus! {

/// The size in bytes of one record of a header file: the name and the
/// aligned length.
pub const HEADER_RECORD_SIZE: usize = 16;

/// A Rust type that maps onto an "elementary" MIRIAD type: the integer
/// types (strings are not included because of the encoding issues that
/// come with them).
pub trait MiriadElementaryType {
    /// The MIRIAD type to which this Rust type maps.
    spec fn spec_elementary_type() -> Type;

    /// The MIRIAD type to which this Rust type maps.
    fn elementary_type() -> (t: Type)
        ensures
            t == Self::spec_elementary_type(),
    ;
}

impl MiriadElementaryType for u8 {
    open spec fn spec_elementary_type() -> Type {
        Type::Binary
    }

    fn elementary_type() -> (t: Type) {
        Type::Binary
    }
}

impl MiriadElementaryType for i8 {
    open spec fn spec_elementary_type() -> Type {
        Type::Int8
    }

    fn elementary_type() -> (t: Type) {
        Type::Int8
    }
}

impl MiriadElementaryType for i16 {
    open spec fn spec_elementary_type() -> Type {
        Type::Int16
    }

    fn elementary_type() -> (t: Type) {
        Type::Int16
    }
}

impl MiriadElementaryType for i32 {
    open spec fn spec_elementary_type() -> Type {
        Type::Int32
    }

    fn elementary_type() -> (t: Type) {
        Type::Int32
    }
}

impl MiriadElementaryType for i64 {
    open spec fn spec_elementary_type() -> Type {
        Type::Int64
    }

    fn elementary_type() -> (t: Type) {
        Type::Int64
    }
}

/// What is known of an item of a data set.
pub struct ItemInfo {
    pub name: String,
    pub is_large: bool,
    pub ty: Type,
    pub n_vals: usize,
}

/// One record of a header file: the item's name, UTF-8 without a trailing
/// NUL, and the length of the item including its alignment padding.
pub struct HeaderItem {
    pub name: [u8; 15],
    pub aligned_len: u8,
}

/// A small item: its name, type, count of values and up to 64 bytes of data.
pub struct SmallItem {
    pub name: String,
    pub ty: Type,
    pub nvals: u8,
    pub values: [u8; 64],
}

impl SmallItem {
    /// A small item of this name, type and count, with its data zeroed.
    pub fn new(name: &str, ty: Type, nvals: u8) -> (s: SmallItem)
        ensures
            s.name@ == name@,
            s.ty == ty,
            s.nvals == nvals,
            forall|i: int| 0 <= i < 64 ==> s.values@[i] == 0,
    {
        SmallItem { name: name.to_owned(), ty, nvals, values: [0u8; 64] }
    }
}

/// The visibility-data item of a data set.
pub struct VisDataItem {}

/// The bytes of a sequence of chunks, one after another.
pub open spec fn concat_chunks(chunks: Seq<Seq<u8>>) -> Seq<u8>
    decreases chunks.len(),
{
    if chunks.len() == 0 {
        Seq::empty()
    } else {
        concat_chunks(chunks.drop_last()) + chunks.last()
    }
}

/// A Rust type that maps onto a vector type of the MIRIAD format.
pub trait MiriadVectorType: Sized + DeepView {
    /// The MIRIAD type of the vector's elements.
    spec fn spec_vector_type() -> Type;

    /// The vector that these bytes hold.
    spec fn spec_from_bytes(bytes: Seq<u8>) -> <Self as DeepView>::V;

    /// The MIRIAD type of the vector's elements.
    fn vector_type() -> (t: Type)
        ensures
            t == Self::spec_vector_type(),
    ;

    /// The vector that a sequence of chunks of bytes holds; each chunk is a
    /// whole number of elements.
    fn from_miriad_byte_chunks(chunks: &[Vec<u8>]) -> (v: Self)
        ensures
            v.deep_view() == Self::spec_from_bytes(concat_chunks(chunks.deep_view())),
    ;

    /// The vector that a buffer holds.
    fn from_miriad_bytes(buf: &[u8]) -> (v: Self)
        ensures
            v.deep_view() == Self::spec_from_bytes(buf@),
    ;
}

impl MiriadVectorType for Vec<u8> {
    open spec fn spec_vector_type() -> Type {
        Type::Binary
    }

    open spec fn spec_from_bytes(bytes: Seq<u8>) -> Seq<u8> {
        bytes
    }

    fn vector_type() -> (t: Type) {
        Type::Binary
    }

    fn from_miriad_byte_chunks(chunks: &[Vec<u8>]) -> (v: Vec<u8>) {
        let mut val: Vec<u8> = Vec::new();
        let mut i: usize = 0;
        while i < chunks.len()
            invariant
                i <= chunks@.len(),
                val@ == concat_chunks(chunks.deep_view().take(i as int)),
            decreases chunks@.len() - i,
        {
            let c = &chunks[i];
            let ghost before = val@;
            let mut j: usize = 0;
            while j < c.len()
                invariant
                    j <= c@.len(),
                    val@ == before + c@.take(j as int),
                decreases c@.len() - j,
            {
                val.push(c[j]);
                j += 1;
                assert(val@ =~= before + c@.take(j as int));
            }
            proof {
                let d = chunks.deep_view();
                assert(d.take(i + 1).drop_last() =~= d.take(i as int));
                assert(d[i as int] == c@);
                assert(c@.take(c@.len() as int) =~= c@);
            }
            i += 1;
        }
        assert(chunks.deep_view().take(chunks@.len() as int) =~= chunks.deep_view());
        assert(val.deep_view() =~= val@);
        val
    }

    fn from_miriad_bytes(buf: &[u8]) -> (v: Vec<u8>) {
        let v = vstd::slice::slice_to_vec(buf);
        assert(v.deep_view() =~= v@);
        v
    }
}

impl MiriadVectorType for Vec<i8> {
    open spec fn spec_vector_type() -> Type {
        Type::Int8
    }

    open spec fn spec_from_bytes(bytes: Seq<u8>) -> Seq<i8> {
        bytes.map_values(|b: u8| b as i8)
    }

    fn vector_type() -> (t: Type) {
        Type::Int8
    }

    fn from_miriad_byte_chunks(chunks: &[Vec<u8>]) -> (v: Vec<i8>) {
        let bytes = <Vec<u8> as MiriadVectorType>::from_miriad_byte_chunks(chunks);
        assert(bytes.deep_view() =~= bytes@);
        Self::from_miriad_bytes(bytes.as_slice())
    }

    fn from_miriad_bytes(buf: &[u8]) -> (v: Vec<i8>) {
        let mut out: Vec<i8> = Vec::new();
        let mut k: usize = 0;
        while k < buf.len()
            invariant
                k <= buf@.len(),
                out@ == buf@.take(k as int).map_values(|b: u8| b as i8),
            decreases buf@.len() - k,
        {
            out.push(buf[k] as i8);
            k += 1;
            assert(out@ =~= buf@.take(k as int).map_values(|b: u8| b as i8));
        }
        assert(buf@.take(buf@.len() as int) =~= buf@);
        assert(out.deep_view() =~= out@);
        out
    }
}

} // verus!
