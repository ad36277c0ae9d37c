//! The data model of CASA tables: storage data types, column
//! descriptions, open and create modes, and the errors of table access.

use crate::num::DimensionMismatchError;
use vstd::prelude::*;

verus! {

/// The storage data types of CASA tables.
#[derive(Clone, Copy, Debug, Eq, Hash, PartialEq, Structural)]
pub enum GlueDataType {
    TpBool,
    TpChar,
    TpUChar,
    TpShort,
    TpUShort,
    TpInt,
    TpUInt,
    TpFloat,
    TpDouble,
    TpComplex,
    TpDComplex,
    TpString,
    TpTable,
    TpArrayBool,
    TpArrayChar,
    TpArrayUChar,
    TpArrayShort,
    TpArrayUShort,
    TpArrayInt,
    TpArrayUInt,
    TpArrayFloat,
    TpArrayDouble,
    TpArrayComplex,
    TpArrayDComplex,
    TpArrayString,
    TpRecord,
    TpOther,
    TpQuantity,
    TpArrayQuantity,
    TpInt64,
    TpArrayInt64,
}

impl GlueDataType {
    /// The short name of the type: the Rust type it holds, `arr<..>` for an
    /// array of them, or a word for the others.
    pub open spec fn spec_name(self) -> Seq<char> {
        match self {
            GlueDataType::TpBool => "bool"@,
            GlueDataType::TpChar => "i8"@,
            GlueDataType::TpUChar => "u8"@,
            GlueDataType::TpShort => "i16"@,
            GlueDataType::TpUShort => "u16"@,
            GlueDataType::TpInt => "i32"@,
            GlueDataType::TpUInt => "u32"@,
            GlueDataType::TpFloat => "f32"@,
            GlueDataType::TpDouble => "f64"@,
            GlueDataType::TpComplex => "c32"@,
            GlueDataType::TpDComplex => "c64"@,
            GlueDataType::TpString => "string"@,
            GlueDataType::TpTable => "table"@,
            GlueDataType::TpArrayBool => "arr<bool>"@,
            GlueDataType::TpArrayChar => "arr<i8>"@,
            GlueDataType::TpArrayUChar => "arr<u8>"@,
            GlueDataType::TpArrayShort => "arr<i16>"@,
            GlueDataType::TpArrayUShort => "arr<u16>"@,
            GlueDataType::TpArrayInt => "arr<i32>"@,
            GlueDataType::TpArrayUInt => "arr<u32>"@,
            GlueDataType::TpArrayFloat => "arr<f32>"@,
            GlueDataType::TpArrayDouble => "arr<f64>"@,
            GlueDataType::TpArrayComplex => "arr<c32>"@,
            GlueDataType::TpArrayDComplex => "arr<c64>"@,
            GlueDataType::TpArrayString => "arr<string>"@,
            GlueDataType::TpRecord => "record"@,
            GlueDataType::TpOther => "other"@,
            GlueDataType::TpQuantity => "quantity"@,
            GlueDataType::TpArrayQuantity => "arr<quantity>"@,
            GlueDataType::TpInt64 => "i64"@,
            GlueDataType::TpArrayInt64 => "arr<i64>"@,
        }
    }

    /// The short name of the type.
    pub fn name(&self) -> (s: &'static str)
        ensures
            s@ == self.spec_name(),
    {
        proof {
            reveal_strlit("bool");
            reveal_strlit("i8");
            reveal_strlit("u8");
            reveal_strlit("i16");
            reveal_strlit("u16");
            reveal_strlit("i32");
            reveal_strlit("u32");
            reveal_strlit("f32");
            reveal_strlit("f64");
            reveal_strlit("c32");
            reveal_strlit("c64");
            reveal_strlit("string");
            reveal_strlit("table");
            reveal_strlit("arr<bool>");
            reveal_strlit("arr<i8>");
            reveal_strlit("arr<u8>");
            reveal_strlit("arr<i16>");
            reveal_strlit("arr<u16>");
            reveal_strlit("arr<i32>");
            reveal_strlit("arr<u32>");
            reveal_strlit("arr<f32>");
            reveal_strlit("arr<f64>");
            reveal_strlit("arr<c32>");
            reveal_strlit("arr<c64>");
            reveal_strlit("arr<string>");
            reveal_strlit("record");
            reveal_strlit("other");
            reveal_strlit("quantity");
            reveal_strlit("arr<quantity>");
            reveal_strlit("i64");
            reveal_strlit("arr<i64>");
        }
        match *self {
            GlueDataType::TpBool => "bool",
            GlueDataType::TpChar => "i8",
            GlueDataType::TpUChar => "u8",
            GlueDataType::TpShort => "i16",
            GlueDataType::TpUShort => "u16",
            GlueDataType::TpInt => "i32",
            GlueDataType::TpUInt => "u32",
            GlueDataType::TpFloat => "f32",
            GlueDataType::TpDouble => "f64",
            GlueDataType::TpComplex => "c32",
            GlueDataType::TpDComplex => "c64",
            GlueDataType::TpString => "string",
            GlueDataType::TpTable => "table",
            GlueDataType::TpArrayBool => "arr<bool>",
            GlueDataType::TpArrayChar => "arr<i8>",
            GlueDataType::TpArrayUChar => "arr<u8>",
            GlueDataType::TpArrayShort => "arr<i16>",
            GlueDataType::TpArrayUShort => "arr<u16>",
            GlueDataType::TpArrayInt => "arr<i32>",
            GlueDataType::TpArrayUInt => "arr<u32>",
            GlueDataType::TpArrayFloat => "arr<f32>",
            GlueDataType::TpArrayDouble => "arr<f64>",
            GlueDataType::TpArrayComplex => "arr<c32>",
            GlueDataType::TpArrayDComplex => "arr<c64>",
            GlueDataType::TpArrayString => "arr<string>",
            GlueDataType::TpRecord => "record",
            GlueDataType::TpOther => "other",
            GlueDataType::TpQuantity => "quantity",
            GlueDataType::TpArrayQuantity => "arr<quantity>",
            GlueDataType::TpInt64 => "i64",
            GlueDataType::TpArrayInt64 => "arr<i64>",
        }
    }
}

/// An error raised by the C++ implementation of the tables: its message.
#[derive(Clone, Debug)]
pub struct CasacoreError(pub String);

/// A value of one storage type was expected and one of another found: the
/// expected type, then the one found.
#[derive(Clone, Copy, Debug, Eq, PartialEq, Structural)]
pub struct UnexpectedDataTypeError(pub GlueDataType, pub GlueDataType);

/// The ways a table can be opened.
#[derive(Clone, Copy, Debug, Eq, PartialEq, Structural)]
pub enum TableOpenMode {
    /// Read-only access.
    Read,
    /// Read-write access.
    ReadWrite,
    /// Create a new table.
    Create,
}

impl TableOpenMode {
    /// The code of the mode in the C++ interface.
    pub fn code(&self) -> (c: u32)
        ensures
            *self == TableOpenMode::Read ==> c == 1,
            *self == TableOpenMode::ReadWrite ==> c == 2,
            *self == TableOpenMode::Create ==> c == 3,
    {
        match *self {
            TableOpenMode::Read => 1,
            TableOpenMode::ReadWrite => 2,
            TableOpenMode::Create => 3,
        }
    }
}

/// The ways a table can be created.
#[derive(Clone, Copy, Debug, Eq, PartialEq, Structural)]
pub enum TableCreateMode {
    /// Create a new table.
    New,
    /// Create a new table, failing if it already exists.
    NewNoReplace,
}

impl TableCreateMode {
    /// The code of the mode in the C++ interface.
    pub fn code(&self) -> (c: u32)
        ensures
            *self == TableCreateMode::New ==> c == 1,
            *self == TableCreateMode::NewNoReplace ==> c == 2,
    {
        match *self {
            TableCreateMode::New => 1,
            TableCreateMode::NewNoReplace => 2,
        }
    }
}

/// What can go wrong when working with tables.
#[derive(Clone, Debug)]
#[non_exhaustive]
pub enum TableError {
    /// Table paths must be representable as UTF-8 strings.
    InvalidUtf8,
    /// A scalar column was expected, but this vector type was found.
    NotScalarColumnError(GlueDataType),
    /// A value of another type than the one expected.
    UnexpectedDataType(UnexpectedDataTypeError),
    /// An error of the C++ implementation.
    Casacore(CasacoreError),
    /// Arrays of different dimensionality where they should agree.
    DimensionMismatch(DimensionMismatchError),
    /// A message of the user's own.
    UserMessage(String),
}

/// Whether a column that the table reports so can be read as a vector of
/// scalars of type `expected`: it must be scalar, of fixed shape and of no
/// dimensions (else `NotScalarColumnError` with its type), and of the
/// expected type (else `UnexpectedDataType`, the expected type first).
pub fn check_scalar_column(
    data_type: GlueDataType,
    is_scalar: i32,
    is_fixed_shape: i32,
    n_dim: i32,
    expected: GlueDataType,
) -> (res: Result<(), TableError>)
    ensures
        (is_scalar == 0 || is_fixed_shape == 0 || n_dim != 0) ==> (res matches Err(TableError::NotScalarColumnError(t))
            && t == data_type),
        !(is_scalar == 0 || is_fixed_shape == 0 || n_dim != 0) && data_type != expected ==> (res matches Err(
            TableError::UnexpectedDataType(e)) && e == UnexpectedDataTypeError(expected, data_type)),
        !(is_scalar == 0 || is_fixed_shape == 0 || n_dim != 0) && data_type == expected ==> res is Ok,
{
    if is_scalar == 0 || is_fixed_shape == 0 || n_dim != 0 {
        return Err(TableError::NotScalarColumnError(data_type));
    }
    if data_type != expected {
        return Err(TableError::UnexpectedDataType(UnexpectedDataTypeError(expected, data_type)));
    }
    Ok(())
}

/// The properties of a column of a table.
#[derive(Clone, Debug)]
pub struct ColumnDescription {
    name: String,
    data_type: GlueDataType,
    is_scalar: bool,
    is_fixed_shape: bool,
    shape: Option<Vec<u64>>,
}

/// The fixed shape that a column reports: its first `n_dim` extents, when
/// it has a fixed shape and a dimensionality.
pub open spec fn reported_shape(is_fixed_shape: i32, n_dim: i32, dims: Seq<u64>) -> Option<Seq<u64>> {
    if is_fixed_shape == 0 || n_dim < 0 {
        None
    } else {
        Some(dims.take(n_dim as int))
    }
}

impl ColumnDescription {
    /// The description of a column from what the table reports of it: its
    /// type, whether it is scalar (non-zero) and of fixed shape (non-zero),
    /// the number of its dimensions and their extents.
    pub fn from_column_info(
        name: &str,
        data_type: GlueDataType,
        is_scalar: i32,
        is_fixed_shape: i32,
        n_dim: i32,
        dims: &[u64; 8],
    ) -> (d: ColumnDescription)
        requires
            n_dim <= 8,
        ensures
            d.spec_name() == name@,
            d.spec_data_type() == data_type,
            d.spec_is_scalar() == (is_scalar != 0),
            d.spec_is_fixed_shape() == (is_fixed_shape != 0),
            d.spec_shape() == reported_shape(is_fixed_shape, n_dim, dims@),
    {
        let shape = if is_fixed_shape == 0 || n_dim < 0 {
            None
        } else {
            let mut v: Vec<u64> = Vec::new();
            let mut i: usize = 0;
            let nd = n_dim as usize;
            while i < nd
                invariant
                    nd == n_dim,
                    nd <= 8,
                    i <= nd,
                    v@ == dims@.take(i as int),
                decreases nd - i,
            {
                v.push(dims[i]);
                i += 1;
                assert(v@ =~= dims@.take(i as int));
            }
            Some(v)
        };
        ColumnDescription {
            name: name.to_owned(),
            data_type,
            is_scalar: is_scalar != 0,
            is_fixed_shape: is_fixed_shape != 0,
            shape,
        }
    }

    pub closed spec fn spec_name(&self) -> Seq<char> {
        self.name@
    }

    pub closed spec fn spec_data_type(&self) -> GlueDataType {
        self.data_type
    }

    pub closed spec fn spec_is_scalar(&self) -> bool {
        self.is_scalar
    }

    pub closed spec fn spec_is_fixed_shape(&self) -> bool {
        self.is_fixed_shape
    }

    pub closed spec fn spec_shape(&self) -> Option<Seq<u64>> {
        match self.shape {
            Some(v) => Some(v@),
            None => None,
        }
    }

    /// The name of the column.
    pub fn name(&self) -> (s: &str)
        ensures
            s@ == self.spec_name(),
    {
        self.name.as_str()
    }

    /// The storage type of the column.
    pub fn data_type(&self) -> (t: GlueDataType)
        ensures
            t == self.spec_data_type(),
    {
        self.data_type
    }

    /// Whether the column holds scalars, as opposed to arrays.
    pub fn is_scalar(&self) -> (b: bool)
        ensures
            b == self.spec_is_scalar(),
    {
        self.is_scalar
    }

    /// Whether the column holds arrays of one fixed shape.
    pub fn is_fixed_shape(&self) -> (b: bool)
        ensures
            b == self.spec_is_fixed_shape(),
    {
        self.is_fixed_shape
    }

    /// The fixed shape of the column's arrays, if it has one.
    pub fn shape(&self) -> (s: Option<&[u64]>)
        ensures
            match self.spec_shape() {
                Some(v) => s matches Some(sl) && sl@ == v,
                None => s is None,
            },
    {
        match &self.shape {
            Some(v) => Some(v.as_slice()),
            None => None,
        }
    }
}

/// A Rust type that corresponds to a CASA storage type.
pub trait CasaDataType {
    /// The storage type of this Rust type.
    spec fn spec_data_type() -> GlueDataType;

    /// The storage type of this Rust type.
    fn data_type() -> (t: GlueDataType)
        ensures
            t == Self::spec_data_type(),
    ;
}

/// A Rust type that corresponds to one of CASA's scalar storage types.
pub trait CasaScalarData: CasaDataType {
    /// The storage type of arrays of this scalar type.
    spec fn spec_vector_type() -> GlueDataType;

    /// The storage type of arrays of this scalar type.
    fn vector_type() -> (t: GlueDataType)
        ensures
            t == Self::spec_vector_type(),
    ;
}

impl CasaDataType for bool {
    open spec fn spec_data_type() -> GlueDataType {
        GlueDataType::TpBool
    }

    fn data_type() -> (t: GlueDataType) {
        GlueDataType::TpBool
    }
}

impl CasaScalarData for bool {
    open spec fn spec_vector_type() -> GlueDataType {
        GlueDataType::TpArrayBool
    }

    fn vector_type() -> (t: GlueDataType) {
        GlueDataType::TpArrayBool
    }
}

impl CasaDataType for i8 {
    open spec fn spec_data_type() -> GlueDataType {
        GlueDataType::TpChar
    }

    fn data_type() -> (t: GlueDataType) {
        GlueDataType::TpChar
    }
}

impl CasaScalarData for i8 {
    open spec fn spec_vector_type() -> GlueDataType {
        GlueDataType::TpArrayChar
    }

    fn vector_type() -> (t: GlueDataType) {
        GlueDataType::TpArrayChar
    }
}

impl CasaDataType for u8 {
    open spec fn spec_data_type() -> GlueDataType {
        GlueDataType::TpUChar
    }

    fn data_type() -> (t: GlueDataType) {
        GlueDataType::TpUChar
    }
}

impl CasaScalarData for u8 {
    open spec fn spec_vector_type() -> GlueDataType {
        GlueDataType::TpArrayUChar
    }

    fn vector_type() -> (t: GlueDataType) {
        GlueDataType::TpArrayUChar
    }
}

impl CasaDataType for i16 {
    open spec fn spec_data_type() -> GlueDataType {
        GlueDataType::TpShort
    }

    fn data_type() -> (t: GlueDataType) {
        GlueDataType::TpShort
    }
}

impl CasaScalarData for i16 {
    open spec fn spec_vector_type() -> GlueDataType {
        GlueDataType::TpArrayShort
    }

    fn vector_type() -> (t: GlueDataType) {
        GlueDataType::TpArrayShort
    }
}

impl CasaDataType for u16 {
    open spec fn spec_data_type() -> GlueDataType {
        GlueDataType::TpUShort
    }

    fn data_type() -> (t: GlueDataType) {
        GlueDataType::TpUShort
    }
}

impl CasaScalarData for u16 {
    open spec fn spec_vector_type() -> GlueDataType {
        GlueDataType::TpArrayUShort
    }

    fn vector_type() -> (t: GlueDataType) {
        GlueDataType::TpArrayUShort
    }
}

impl CasaDataType for i32 {
    open spec fn spec_data_type() -> GlueDataType {
        GlueDataType::TpInt
    }

    fn data_type() -> (t: GlueDataType) {
        GlueDataType::TpInt
    }
}

impl CasaScalarData for i32 {
    open spec fn spec_vector_type() -> GlueDataType {
        GlueDataType::TpArrayInt
    }

    fn vector_type() -> (t: GlueDataType) {
        GlueDataType::TpArrayInt
    }
}

impl CasaDataType for u32 {
    open spec fn spec_data_type() -> GlueDataType {
        GlueDataType::TpUInt
    }

    fn data_type() -> (t: GlueDataType) {
        GlueDataType::TpUInt
    }
}

impl CasaScalarData for u32 {
    open spec fn spec_vector_type() -> GlueDataType {
        GlueDataType::TpArrayUInt
    }

    fn vector_type() -> (t: GlueDataType) {
        GlueDataType::TpArrayUInt
    }
}

impl CasaDataType for i64 {
    open spec fn spec_data_type() -> GlueDataType {
        GlueDataType::TpInt64
    }

    fn data_type() -> (t: GlueDataType) {
        GlueDataType::TpInt64
    }
}

impl CasaScalarData for i64 {
    open spec fn spec_vector_type() -> GlueDataType {
        GlueDataType::TpArrayInt64
    }

    fn vector_type() -> (t: GlueDataType) {
        GlueDataType::TpArrayInt64
    }
}

impl CasaDataType for String {
    open spec fn spec_data_type() -> GlueDataType {
        GlueDataType::TpString
    }

    fn data_type() -> (t: GlueDataType) {
        GlueDataType::TpString
    }
}

impl CasaScalarData for String {
    open spec fn spec_vector_type() -> GlueDataType {
        GlueDataType::TpArrayString
    }

    fn vector_type() -> (t: GlueDataType) {
        GlueDataType::TpArrayString
    }
}

impl CasaDataType for Vec<bool> {
    open spec fn spec_data_type() -> GlueDataType {
        GlueDataType::TpArrayBool
    }

    fn data_type() -> (t: GlueDataType) {
        GlueDataType::TpArrayBool
    }
}

impl CasaDataType for Vec<i8> {
    open spec fn spec_data_type() -> GlueDataType {
        GlueDataType::TpArrayChar
    }

    fn data_type() -> (t: GlueDataType) {
        GlueDataType::TpArrayChar
    }
}

impl CasaDataType for Vec<u8> {
    open spec fn spec_data_type() -> GlueDataType {
        GlueDataType::TpArrayUChar
    }

    fn data_type() -> (t: GlueDataType) {
        GlueDataType::TpArrayUChar
    }
}

impl CasaDataType for Vec<i16> {
    open spec fn spec_data_type() -> GlueDataType {
        GlueDataType::TpArrayShort
    }

    fn data_type() -> (t: GlueDataType) {
        GlueDataType::TpArrayShort
    }
}

impl CasaDataType for Vec<u16> {
    open spec fn spec_data_type() -> GlueDataType {
        GlueDataType::TpArrayUShort
    }

    fn data_type() -> (t: GlueDataType) {
        GlueDataType::TpArrayUShort
    }
}

impl CasaDataType for Vec<i32> {
    open spec fn spec_data_type() -> GlueDataType {
        GlueDataType::TpArrayInt
    }

    fn data_type() -> (t: GlueDataType) {
        GlueDataType::TpArrayInt
    }
}

impl CasaDataType for Vec<u32> {
    open spec fn spec_data_type() -> GlueDataType {
        GlueDataType::TpArrayUInt
    }

    fn data_type() -> (t: GlueDataType) {
        GlueDataType::TpArrayUInt
    }
}

impl CasaDataType for Vec<i64> {
    open spec fn spec_data_type() -> GlueDataType {
        GlueDataType::TpArrayInt64
    }

    fn data_type() -> (t: GlueDataType) {
        GlueDataType::TpArrayInt64
    }
}

impl CasaDataType for Vec<String> {
    open spec fn spec_data_type() -> GlueDataType {
        GlueDataType::TpArrayString
    }

    fn data_type() -> (t: GlueDataType) {
        GlueDataType::TpArrayString
    }
}

} // verus!
