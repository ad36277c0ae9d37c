//! Access to MIRIAD-format data sets: item types, header items, masks and
//! the UV visibility stream.

pub mod header;
pub mod mapped;
pub mod mask;
pub mod uv_round_trip;
pub mod visdata;

use crate::bytes::{be_u32, read_be_i32, u32_be_bytes, write_be_i32};
use crate::miriad::mapped::MiriadMappedType;
use crate::text::{all_ascii, ascii_chars, lemma_ascii_utf8, starts_with, str_starts_with};
use vstd::string::StrSliceExecFns;
use vstd::prelude::*;
use vstd::utf8::{decode_utf8, encode_utf8, encode_utf8_decode_utf8, is_ascii_chars, is_ascii_chars_encode_utf8};

verus! {

/// The maximum length of the name of a data-set item, in bytes.
pub const MAX_ITEM_NAME_LENGTH: usize = 8;

/// The storage types of MIRIAD data.
#[derive(Copy, Clone, Debug, Eq, Hash, PartialEq, Structural)]
pub enum Type {
    Binary,
    Int8,
    Int32,
    Int16,
    Float32,
    Float64,
    Text,
    Complex64,
    Int64,
}

/// An error for when a MIRIAD data set is malformed or misused.
#[derive(Clone, Debug, PartialEq, Eq)]
pub enum MiriadFormatError {
    /// This number is not a MIRIAD type code.
    IllegalTypeCode(i32),
    /// This string is not a MIRIAD type abbreviation.
    IllegalTypeAbbrev(String),
    /// A header item holds this many bytes of data, which is no whole number
    /// of values of its type.
    IllegalArraySize(usize, Type),
    /// A header item's length is too short for its own type code.
    HeaderItemTooShort,
    /// An item name that is not UTF-8.
    NameNotUtf8,
    /// Text data that are not UTF-8.
    TextNotUtf8,
    /// The data end in the middle of a record.
    UnexpectedEof,
    /// A visibility record names a variable that the stream does not define.
    TooLargeVariableNumber,
    /// A visibility record gives a negative data size.
    NegativeDataSize,
    /// A visibility record gives a data size that is no whole number of values.
    NonIntegralElements,
    /// A visibility record has this unknown record code.
    UnrecognizedRecordCode(u8),
    /// A baseline value decodes to an illegal antenna pair.
    IllegalBaseline,
    /// An antenna number is larger than 2047.
    AntennaTooLarge,
    /// The first antenna of a baseline is larger than the second.
    AntennaOrder,
    /// A value is stored with a type other than the one asked for.
    TypeMismatch(Type, Type),
    /// A line of a vartable that is not a type and a name.
    IllegalVartableLine(String),
    /// A vartable that defines more variables than a record can number.
    TooManyVariables,
    /// The stream has no variable of this name.
    NoSuchVariable(String),
    /// A variable would be written with no values.
    ZeroSizeArray(String),
    /// An `obstype` value that names no kind of correlations.
    UnexpectedObstype(String),
    /// An item may not be named `header`.
    ReservedItemName,
    /// An item name longer than 8 bytes.
    ItemNameTooLong,
    /// An item name that is not ASCII.
    ItemNameNotAscii,
    /// Values too large to be stored as a small header item.
    SmallItemTooLarge,
    /// Setting this small item would mask the large item of the same name.
    MasksLargeItem(String),
}

impl Type {
    /// The type that a type code names.
    pub open spec fn spec_from_i32(code: i32) -> Option<Type> {
        if code == 0 {
            Some(Type::Binary)
        } else if code == 1 {
            Some(Type::Int8)
        } else if code == 2 {
            Some(Type::Int32)
        } else if code == 3 {
            Some(Type::Int16)
        } else if code == 4 {
            Some(Type::Float32)
        } else if code == 5 {
            Some(Type::Float64)
        } else if code == 6 {
            Some(Type::Text)
        } else if code == 7 {
            Some(Type::Complex64)
        } else if code == 8 {
            Some(Type::Int64)
        } else {
            None
        }
    }

    /// The type code of this type.
    pub open spec fn spec_code(self) -> i32 {
        match self {
            Type::Binary => 0,
            Type::Int8 => 1,
            Type::Int32 => 2,
            Type::Int16 => 3,
            Type::Float32 => 4,
            Type::Float64 => 5,
            Type::Text => 6,
            Type::Complex64 => 7,
            Type::Int64 => 8,
        }
    }

    /// The type code of this type.
    pub fn code(&self) -> (c: i32)
        ensures
            c == self.spec_code(),
            Type::spec_from_i32(c) == Some(*self),
    {
        match *self {
            Type::Binary => 0,
            Type::Int8 => 1,
            Type::Int32 => 2,
            Type::Int16 => 3,
            Type::Float32 => 4,
            Type::Float64 => 5,
            Type::Text => 6,
            Type::Complex64 => 7,
            Type::Int64 => 8,
        }
    }

    /// The type that a type code names; an error for another number.
    pub fn try_from_i32(type_code: i32) -> (res: Result<Type, MiriadFormatError>)
        ensures
            match Type::spec_from_i32(type_code) {
                Some(t) => res == Ok::<Type, MiriadFormatError>(t),
                None => res == Err::<Type, MiriadFormatError>(MiriadFormatError::IllegalTypeCode(type_code)),
            },
    {
        match type_code {
            0 => Ok(Type::Binary),
            1 => Ok(Type::Int8),
            3 => Ok(Type::Int16),
            2 => Ok(Type::Int32),
            8 => Ok(Type::Int64),
            4 => Ok(Type::Float32),
            5 => Ok(Type::Float64),
            7 => Ok(Type::Complex64),
            6 => Ok(Type::Text),
            _ => Err(MiriadFormatError::IllegalTypeCode(type_code)),
        }
    }

    /// The one-letter abbreviation of this type (`?` for binary data, which
    /// has none).
    pub open spec fn spec_abbrev_char(self) -> char {
        match self {
            Type::Binary => '?',
            Type::Int8 => 'b',
            Type::Int16 => 'j',
            Type::Int32 => 'i',
            Type::Int64 => 'l',
            Type::Float32 => 'r',
            Type::Float64 => 'd',
            Type::Complex64 => 'c',
            Type::Text => 'a',
        }
    }

    /// The one-letter abbreviation of this type.
    pub fn abbrev_char(&self) -> (c: char)
        ensures
            c == self.spec_abbrev_char(),
    {
        match *self {
            Type::Binary => '?',
            Type::Int8 => 'b',
            Type::Int16 => 'j',
            Type::Int32 => 'i',
            Type::Int64 => 'l',
            Type::Float32 => 'r',
            Type::Float64 => 'd',
            Type::Complex64 => 'c',
            Type::Text => 'a',
        }
    }

    /// The type that an abbreviation names: every type but binary has one.
    pub open spec fn spec_from_abbrev(s: Seq<char>) -> Option<Type> {
        if s == seq!['b'] {
            Some(Type::Int8)
        } else if s == seq!['j'] {
            Some(Type::Int16)
        } else if s == seq!['i'] {
            Some(Type::Int32)
        } else if s == seq!['l'] {
            Some(Type::Int64)
        } else if s == seq!['r'] {
            Some(Type::Float32)
        } else if s == seq!['d'] {
            Some(Type::Float64)
        } else if s == seq!['c'] {
            Some(Type::Complex64)
        } else if s == seq!['a'] {
            Some(Type::Text)
        } else {
            None
        }
    }

    /// Each type but binary is named by its own abbreviation, and an
    /// abbreviation names only the type whose abbreviation it is.
    pub proof fn law_abbrev_names_type(t: Type, s: Seq<char>)
        ensures
            t != Type::Binary ==> Type::spec_from_abbrev(seq![t.spec_abbrev_char()]) == Some(t),
            Type::spec_from_abbrev(s) matches Some(u) ==> u != Type::Binary && s == seq![u.spec_abbrev_char()],
    {
        let q = seq![t.spec_abbrev_char()];
        assert(q[0] == t.spec_abbrev_char());
        assert(seq!['b'][0] == 'b' && seq!['j'][0] == 'j' && seq!['i'][0] == 'i' && seq!['l'][0] == 'l');
        assert(seq!['r'][0] == 'r' && seq!['d'][0] == 'd' && seq!['c'][0] == 'c' && seq!['a'][0] == 'a');
        if t != Type::Binary {
            assert(q =~= seq![t.spec_abbrev_char()]);
            match t {
                Type::Int8 => assert(q =~= seq!['b']),
                Type::Int16 => assert(q =~= seq!['j']),
                Type::Int32 => assert(q =~= seq!['i']),
                Type::Int64 => assert(q =~= seq!['l']),
                Type::Float32 => assert(q =~= seq!['r']),
                Type::Float64 => assert(q =~= seq!['d']),
                Type::Complex64 => assert(q =~= seq!['c']),
                Type::Text => assert(q =~= seq!['a']),
                Type::Binary => {},
            }
        }
    }

    /// The type that an abbreviation names; an error for another string.
    pub fn try_from_abbrev(abbrev: &str) -> (res: Result<Type, MiriadFormatError>)
        ensures
            match Type::spec_from_abbrev(abbrev@) {
                Some(t) => res == Ok::<Type, MiriadFormatError>(t),
                None => res matches Err(MiriadFormatError::IllegalTypeAbbrev(s)) && s@ == abbrev@,
            },
    {
        let b = abbrev.as_bytes();
        proof {
            encode_utf8_decode_utf8(abbrev@);
        }
        if b.len() == 1 && b[0] < 128 {
            let c = b[0];
            proof {
                assert(all_ascii(b@));
                lemma_ascii_utf8(b@);
                assert(abbrev@ =~= seq![c as char]);
            }
            if c == 98 {
                return Ok(Type::Int8);
            } else if c == 106 {
                return Ok(Type::Int16);
            } else if c == 105 {
                return Ok(Type::Int32);
            } else if c == 108 {
                return Ok(Type::Int64);
            } else if c == 114 {
                return Ok(Type::Float32);
            } else if c == 100 {
                return Ok(Type::Float64);
            } else if c == 99 {
                return Ok(Type::Complex64);
            } else if c == 97 {
                return Ok(Type::Text);
            }
        } else {
            proof {
                if Type::spec_from_abbrev(abbrev@) is Some {
                    assert(vstd::utf8::is_ascii_chars(abbrev@));
                    is_ascii_chars_encode_utf8(abbrev@);
                }
            }
        }
        Err(MiriadFormatError::IllegalTypeAbbrev(abbrev.to_owned()))
    }

    pub open spec fn spec_size(self) -> nat {
        match self {
            Type::Binary => 1,
            Type::Int8 => 1,
            Type::Int16 => 2,
            Type::Int32 => 4,
            Type::Int64 => 8,
            Type::Float32 => 4,
            Type::Float64 => 8,
            Type::Complex64 => 8,
            Type::Text => 1,
        }
    }

    /// The size of one value of this type, in bytes.
    pub fn size(&self) -> (n: usize)
        ensures
            n == self.spec_size(),
    {
        match *self {
            Type::Binary => 1,
            Type::Int8 => 1,
            Type::Int16 => 2,
            Type::Int32 => 4,
            Type::Int64 => 8,
            Type::Float32 => 4,
            Type::Float64 => 8,
            Type::Complex64 => 8,
            Type::Text => 1,
        }
    }

    pub open spec fn spec_alignment(self) -> u8 {
        match self {
            Type::Binary => 1,
            Type::Int8 => 1,
            Type::Int16 => 2,
            Type::Int32 => 4,
            Type::Int64 => 8,
            Type::Float32 => 4,
            Type::Float64 => 8,
            Type::Complex64 => 4,
            Type::Text => 1,
        }
    }

    /// The alignment of values of this type in a UV stream, in bytes.
    pub fn alignment(&self) -> (n: u8)
        ensures
            n == self.spec_alignment(),
    {
        match *self {
            Type::Binary => 1,
            Type::Int8 => 1,
            Type::Int16 => 2,
            Type::Int32 => 4,
            Type::Int64 => 8,
            Type::Float32 => 4,
            Type::Float64 => 8,
            Type::Complex64 => 4,
            Type::Text => 1,
        }
    }

    pub open spec fn spec_name(self) -> Seq<char> {
        match self {
            Type::Binary => "binary"@,
            Type::Int8 => "int8"@,
            Type::Int16 => "int16"@,
            Type::Int32 => "int32"@,
            Type::Int64 => "int64"@,
            Type::Float32 => "float32"@,
            Type::Float64 => "float64"@,
            Type::Complex64 => "complex64"@,
            Type::Text => "text"@,
        }
    }

    /// The name of this type, as it is displayed.
    pub fn name(&self) -> (s: &str)
        ensures
            s@ == self.spec_name(),
    {
        match *self {
            Type::Binary => "binary",
            Type::Int8 => "int8",
            Type::Int16 => "int16",
            Type::Int32 => "int32",
            Type::Int64 => "int64",
            Type::Float32 => "float32",
            Type::Float64 => "float64",
            Type::Complex64 => "complex64",
            Type::Text => "text",
        }
    }
}

/// Where an item's data live: in the header, or in a file of their own
/// holding this many values.
#[derive(Clone, Debug, Eq, PartialEq)]
pub enum ItemStorage {
    Small(Vec<u8>),
    Large(usize),
}

/// The type and storage of a data-set item.
#[derive(Clone, Debug, Eq, PartialEq)]
pub struct InternalItemInfo {
    pub ty: Type,
    pub storage: ItemStorage,
}

impl InternalItemInfo {
    /// Information about an item stored in the header.
    pub fn new_small(ty: Type, data: Vec<u8>) -> (i: InternalItemInfo)
        ensures
            i.ty == ty,
            i.storage matches ItemStorage::Small(d) && d@ == data@,
    {
        InternalItemInfo { ty, storage: ItemStorage::Small(data) }
    }

    /// The number of values in the item: one for text.
    pub open spec fn spec_n_vals(&self) -> int {
        if self.ty == Type::Text {
            1
        } else {
            match self.storage {
                ItemStorage::Small(d) => d.len() as int / self.ty.spec_size() as int,
                ItemStorage::Large(n) => n as int,
            }
        }
    }

    /// The number of values in the item: one for text.
    pub fn n_vals(&self) -> (n: usize)
        ensures
            n == self.spec_n_vals(),
    {
        if self.ty == Type::Text {
            1
        } else {
            match &self.storage {
                ItemStorage::Small(data) => data.len() / self.ty.size(),
                ItemStorage::Large(n) => *n,
            }
        }
    }

    /// Information about an item stored in a file of its own, from the first
    /// bytes of the file (up to 4; fewer only when the file is shorter) and
    /// the file's length.
    pub fn new_large(head: &[u8], file_len: u64) -> (res: Result<InternalItemInfo, MiriadFormatError>)
        requires
            head@.len() >= 4 ==> file_len >= 4,
        ensures
            match spec_large_item(head@, file_len as int) {
                Ok((t, n)) => res matches Ok(i) && i.ty == t && i.storage == ItemStorage::Large(n as usize),
                Err(e) => res == Err::<InternalItemInfo, MiriadFormatError>(e),
            },
    {
        let full = head.len() >= 4;
        let tb: [u8; 4] = if full { [head[0], head[1], head[2], head[3]] } else { [0u8; 4] };
        let code = read_be_i32(&tb);
        let (ty, size_offset) = match Type::try_from_i32(code) {
            Ok(t) => (t, if full { 4u64 } else { 0u64 }),
            Err(_) => {
                if printable(tb[0]) && printable(tb[1]) && printable(tb[2]) && printable(tb[3]) {
                    (Type::Text, 0u64)
                } else {
                    (Type::Binary, if full { 4u64 } else { 0u64 })
                }
            },
        };
        let data_size = file_len - size_offset;
        let sz = ty.size() as u64;
        if data_size % sz != 0 {
            return Err(MiriadFormatError::NonIntegralElements);
        }
        Ok(InternalItemInfo { ty, storage: ItemStorage::Large((data_size / sz) as usize) })
    }
}

/// Whether a byte is printable ASCII.
pub open spec fn is_printable(b: u8) -> bool {
    0x20 <= b <= 0x7e
}

fn printable(b: u8) -> (r: bool)
    ensures
        r == is_printable(b),
{
    b >= 0x20 && b <= 0x7e
}

/// The type and number of values of an item stored in a file of its own,
/// from its first bytes and its length: the first four bytes are a type
/// code, counted out of the data; a file too short for one is taken as
/// binary; four printable bytes that are no type code start text, which has
/// no code.
pub open spec fn spec_large_item(head: Seq<u8>, len: int) -> Result<(Type, int), MiriadFormatError> {
    let full = head.len() >= 4;
    let tb = if full { head.take(4) } else { seq![0u8, 0u8, 0u8, 0u8] };
    let code = be_u32(tb[0], tb[1], tb[2], tb[3]) as i32;
    let (ty, off) = match Type::spec_from_i32(code) {
        Some(t) => (t, if full { 4int } else { 0int }),
        None => if is_printable(tb[0]) && is_printable(tb[1]) && is_printable(tb[2]) && is_printable(tb[3]) {
            (Type::Text, 0int)
        } else {
            (Type::Binary, if full { 4int } else { 0int })
        },
    };
    let data_size = len - off;
    if data_size % (ty.spec_size() as int) != 0 {
        Err(MiriadFormatError::NonIntegralElements)
    } else {
        Ok((ty, data_size / (ty.spec_size() as int)))
    }
}

/// The name of the data set's header item.
pub open spec fn header_name() -> Seq<char> {
    seq!['h', 'e', 'a', 'd', 'e', 'r']
}

/// The bytes that a new large item of type `ty` starts with: its type code,
/// except for text and binary data, which have none.
pub open spec fn large_item_prefix(ty: Type) -> Seq<u8> {
    if ty == Type::Text || ty == Type::Binary {
        Seq::empty()
    } else {
        u32_be_bytes(ty.spec_code() as u32)
    }
}

/// Check the name of a new large item and give the bytes its file starts
/// with: the name may not be `header`, and must be ASCII of at most 8 bytes.
pub fn large_item_start(name: &str, ty: Type) -> (res: Result<Vec<u8>, MiriadFormatError>)
    ensures
        name@ == header_name() ==> res == Err::<Vec<u8>, MiriadFormatError>(MiriadFormatError::ReservedItemName),
        name@ != header_name() && encode_utf8(name@).len() > 8
            ==> res == Err::<Vec<u8>, MiriadFormatError>(MiriadFormatError::ItemNameTooLong),
        name@ != header_name() && encode_utf8(name@).len() <= 8 && !is_ascii_chars(name@)
            ==> res == Err::<Vec<u8>, MiriadFormatError>(MiriadFormatError::ItemNameNotAscii),
        name@ != header_name() && encode_utf8(name@).len() <= 8 && is_ascii_chars(name@)
            ==> (res matches Ok(b) && b@ == large_item_prefix(ty)),
{
    let is_header = name.unicode_len() == 6 && str_starts_with(name, "header");
    proof {
        reveal_strlit("header");
        assert("header"@ =~= header_name());
        if name@ == header_name() {
            assert(name@.take(6) =~= header_name());
        }
        if name@.len() == 6 && starts_with(name@, "header"@) {
            assert(name@ =~= name@.take(6));
        }
    }
    if is_header {
        return Err(MiriadFormatError::ReservedItemName);
    }
    if name.as_bytes().len() > MAX_ITEM_NAME_LENGTH {
        return Err(MiriadFormatError::ItemNameTooLong);
    }
    if !name.is_ascii() {
        return Err(MiriadFormatError::ItemNameNotAscii);
    }
    match ty {
        Type::Text | Type::Binary => Ok(Vec::new()),
        _ => {
            let b = write_be_i32(ty.code());
            let mut v: Vec<u8> = Vec::new();
            v.push(b[0]);
            v.push(b[1]);
            v.push(b[2]);
            v.push(b[3]);
            assert(v@ =~= b@);
            Ok(v)
        },
    }
}

impl InternalItemInfo {
    /// Set the values of a small item: its data become the encoded values
    /// and its type the values' type, unless they take more than 64 bytes,
    /// when the data are changed but the type is not and an error returned.
    /// A large item cannot be set so.
    pub fn set_small_values<T: MiriadMappedType>(&mut self, name: &str, values: &[T]) -> (res: Result<(), MiriadFormatError>)
        requires
            T::encodable(values.deep_view()),
        ensures
            match old(self).storage {
                ItemStorage::Large(_) => (res matches Err(MiriadFormatError::MasksLargeItem(s)) && s@ == name@)
                    && *final(self) == *old(self),
                ItemStorage::Small(_) => {
                    let enc = T::spec_encode(values.deep_view());
                    &&& final(self).storage matches ItemStorage::Small(d) && d@ == enc
                    &&& enc.len() > 64 ==> res == Err::<(), MiriadFormatError>(MiriadFormatError::SmallItemTooLarge)
                        && final(self).ty == old(self).ty
                    &&& enc.len() <= 64 ==> res is Ok && final(self).ty == T::spec_type()
                },
            },
    {
        match &mut self.storage {
            ItemStorage::Small(data) => {
                T::encode_values_into_vec(values, data);
                if data.len() > 64 {
                    return Err(MiriadFormatError::SmallItemTooLarge);
                }
            },
            ItemStorage::Large(_) => {
                return Err(MiriadFormatError::MasksLargeItem(name.to_owned()));
            },
        }
        self.ty = T::miriad_type();
        Ok(())
    }
}

} // verus!
