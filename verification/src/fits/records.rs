//! The fixed-format FITS header records: integers, strings and `NAXISn`.

use vstd::arithmetic::power::pow;
use vstd::prelude::*;

verus! {

/// An error for when a FITS stream is malformed.
#[derive(Clone, Copy, Debug, PartialEq, Eq, Structural)]
pub enum FitsFormatError {
    /// Byte 30 of a fixed-format integer record is neither a space nor a slash.
    FixedIntTerminator,
    /// A fixed-format integer record holds no digits.
    FixedIntEmpty,
    /// A fixed-format integer record holds this byte where a digit belongs.
    FixedIntDigit(u8),
    /// A fixed-format integer does not fit in an `isize`.
    FixedIntOverflow,
    /// A fixed-format string record lacks the `= '` opening in bytes 8 to 10.
    FixedStringOpening,
    /// A fixed-format string record holds a byte that is not printable ASCII.
    FixedStringNonPrintable,
    /// This byte follows a closing quote where only a quote, space or slash may.
    FixedStringAfterQuote(u8),
    /// This byte follows the string where only spaces and a slash may.
    FixedStringAfterString(u8),
    /// A fixed-format string is never closed.
    FixedStringUnterminated,
    /// A record that begins with `NAXIS` lacks `= ` in bytes 8 and 9.
    NaxisMalformed,
    /// This byte stands in the number of a `NAXISn` keyword where a digit belongs.
    NaxisDigit(u8),
    /// This byte follows the number of a `NAXISn` keyword where a space belongs.
    NaxisSpace(u8),
    /// A `NAXISn` keyword has number `got` where `expected` was due.
    NaxisMisnumbered { expected: usize, got: usize },
    /// A `NAXISn` value is negative.
    NaxisNegative,
    /// The stream ends where more data are due.
    Truncated,
    /// The stream does not begin with the `SIMPLE = T` record.
    NoSimpleMarker,
    /// The second record of an HDU is not `BITPIX`.
    SecondNotBitpix,
    /// The third record of an HDU is not `NAXIS`.
    ThirdNotNaxis,
    /// `BITPIX` has this value, which is none of 8, 16, 32, 64, -32, -64.
    UnsupportedBitpix(isize),
    /// `NAXIS` has this value, which is outside 0 to 999.
    UnsupportedNaxis(isize),
    /// `GCOUNT` is negative.
    NegativeGcount,
    /// `PCOUNT` plus the product of the axis lengths is negative.
    NegativeGroupSize,
    /// The size of the data does not fit in the machine's integers.
    DataSizeOverflow,
    /// A header keyword holds this byte, which is not a digit, capital, `_` or `-`.
    KeywordChar(u8),
    /// A header keyword holds a non-blank after a blank.
    MalformedKeyword,
    /// The stream's length in bytes, which is not a multiple of 2880.
    NotMultipleOfBlock(u64),
    /// An extension HDU has no `EXTNAME` header.
    MissingExtname,
    /// A random-groups primary HDU has no axes.
    GroupsWithoutAxes,
}

/// The storage format of FITS binary data, as given by the `BITPIX` header.
#[derive(Clone, Copy, Debug, PartialEq, Eq, Structural)]
pub enum Bitpix {
    /// Bytes or ASCII text (`BITPIX = 8`).
    U8,
    /// `i16` values (`BITPIX = 16`).
    I16,
    /// `i32` values (`BITPIX = 32`).
    I32,
    /// `i64` values (`BITPIX = 64`).
    I64,
    /// `f32` values (`BITPIX = -32`).
    F32,
    /// `f64` values (`BITPIX = -64`).
    F64,
}

impl Bitpix {
    pub open spec fn spec_n_bytes(self) -> nat {
        match self {
            Bitpix::U8 => 1,
            Bitpix::I16 => 2,
            Bitpix::I32 => 4,
            Bitpix::I64 => 8,
            Bitpix::F32 => 4,
            Bitpix::F64 => 8,
        }
    }

    /// The size of one item in this format, in bytes.
    pub fn n_bytes(&self) -> (n: usize)
        ensures
            n == self.spec_n_bytes(),
    {
        match *self {
            Bitpix::U8 => 1,
            Bitpix::I16 => 2,
            Bitpix::I32 => 4,
            Bitpix::I64 => 8,
            Bitpix::F32 => 4,
            Bitpix::F64 => 8,
        }
    }

    /// The format that a `BITPIX` value names.
    pub open spec fn spec_from_value(v: int) -> Option<Bitpix> {
        if v == 8 {
            Some(Bitpix::U8)
        } else if v == 16 {
            Some(Bitpix::I16)
        } else if v == 32 {
            Some(Bitpix::I32)
        } else if v == 64 {
            Some(Bitpix::I64)
        } else if v == -32 {
            Some(Bitpix::F32)
        } else if v == -64 {
            Some(Bitpix::F64)
        } else {
            None
        }
    }

    /// The format that a `BITPIX` value names; an error for another value.
    pub fn from_value(v: isize) -> (res: Result<Bitpix, FitsFormatError>)
        ensures
            match Bitpix::spec_from_value(v as int) {
                Some(b) => res == Ok::<Bitpix, FitsFormatError>(b),
                None => res == Err::<Bitpix, FitsFormatError>(FitsFormatError::UnsupportedBitpix(v)),
            },
    {
        if v == 8 {
            Ok(Bitpix::U8)
        } else if v == 16 {
            Ok(Bitpix::I16)
        } else if v == 32 {
            Ok(Bitpix::I32)
        } else if v == 64 {
            Ok(Bitpix::I64)
        } else if v == -32 {
            Ok(Bitpix::F32)
        } else if v == -64 {
            Ok(Bitpix::F64)
        } else {
            Err(FitsFormatError::UnsupportedBitpix(v))
        }
    }
}

/// Whether a format holds floating-point values.
pub open spec fn is_float_format(b: Bitpix) -> bool {
    b == Bitpix::F32 || b == Bitpix::F64
}

/// What a `BITPIX` value means: its magnitude is the number of bits per
/// value, and a negative value names a floating-point format. Exactly the
/// values 8, 16, 32, 64, -32 and -64 are supported, and each names the
/// format whose values take `|BITPIX| / 8` bytes.
pub proof fn law_bitpix_value(v: int)
    ensures
        Bitpix::spec_from_value(v) is Some <==> (v == 8 || v == 16 || v == 32 || v == 64 || v == -32 || v == -64),
        Bitpix::spec_from_value(v) matches Some(b) ==> {
            &&& 8 * b.spec_n_bytes() == (if v < 0 { -v } else { v })
            &&& is_float_format(b) <==> v < 0
        },
{
}

/// The formats are told apart by their size and whether they hold floats.
pub proof fn law_bitpix_distinct(a: Bitpix, b: Bitpix)
    requires
        a.spec_n_bytes() == b.spec_n_bytes(),
        is_float_format(a) == is_float_format(b),
    ensures
        a == b,
{
}

pub const SPACE: u8 = 32u8;
pub const SLASH: u8 = 47u8;
pub const MINUS: u8 = 45u8;
pub const PLUS: u8 = 43u8;
pub const QUOTE: u8 = 39u8;
pub const EQUALS: u8 = 61u8;
pub const DIGIT_ZERO: u8 = 48u8;
pub const DIGIT_NINE: u8 = 57u8;

pub open spec fn is_digit(c: u8) -> bool {
    DIGIT_ZERO <= c <= DIGIT_NINE
}

/// The decimal value of a sequence of ASCII digits.
pub open spec fn digits_value(s: Seq<u8>) -> int
    decreases s.len(),
{
    if s.len() == 0 {
        0
    } else {
        digits_value(s.drop_last()) * 10 + (s.last() - DIGIT_ZERO)
    }
}

pub open spec fn all_digits(s: Seq<u8>) -> bool {
    forall|k: int| 0 <= k < s.len() ==> is_digit(#[trigger] s[k])
}

/// The index of the first non-digit of `s` (its length if there is none).
pub open spec fn first_non_digit(s: Seq<u8>) -> int
    decreases s.len(),
{
    if s.len() == 0 {
        0
    } else if !is_digit(s[0]) {
        0
    } else {
        1 + first_non_digit(s.drop_first())
    }
}

/// The index of the first byte at or after `i` and before 30 that is not a
/// space (30 if there is none).
pub open spec fn first_nonblank_before_30(r: Seq<u8>, i: int) -> int
    decreases 30 - i,
{
    if i >= 30 {
        30
    } else if r[i] != SPACE {
        i
    } else {
        first_nonblank_before_30(r, i + 1)
    }
}

/// What a fixed-format integer record (value right-justified in bytes 10
/// through 29) means.
pub open spec fn spec_fixed_int(r: Seq<u8>) -> Result<int, FitsFormatError> {
    if r[30] != SPACE && r[30] != SLASH {
        Err(FitsFormatError::FixedIntTerminator)
    } else {
        let i0 = first_nonblank_before_30(r, 10);
        let negate = i0 < 30 && r[i0] == MINUS;
        let i1 = if i0 < 30 && (r[i0] == MINUS || r[i0] == PLUS) {
            i0 + 1
        } else {
            i0
        };
        if i1 >= 30 {
            Err(FitsFormatError::FixedIntEmpty)
        } else {
            let ds = r.subrange(i1, 30);
            if !all_digits(ds) {
                Err(FitsFormatError::FixedIntDigit(ds[first_non_digit(ds)]))
            } else {
                let v = if negate {
                    -digits_value(ds)
                } else {
                    digits_value(ds)
                };
                if isize::MIN <= v <= isize::MAX {
                    Ok(v)
                } else {
                    Err(FitsFormatError::FixedIntOverflow)
                }
            }
        }
    }
}

proof fn lemma_first_non_digit(s: Seq<u8>, j: int)
    requires
        0 <= j < s.len(),
        !is_digit(s[j]),
        forall|k: int| 0 <= k < j ==> is_digit(#[trigger] s[k]),
    ensures
        first_non_digit(s) == j,
    decreases j,
{
    if j > 0 {
        let t = s.drop_first();
        assert forall|k: int| 0 <= k < j - 1 implies is_digit(#[trigger] t[k]) by {
            assert(t[k] == s[k + 1]);
        }
        assert(is_digit(s[0]));
        lemma_first_non_digit(t, j - 1);
    }
}

proof fn lemma_first_nonblank(r: Seq<u8>, i: int, j: int)
    requires
        10 <= i <= j <= 30,
        r.len() >= 31,
        forall|k: int| i <= k < j ==> #[trigger] r[k] == SPACE,
        j == 30 || r[j] != SPACE,
    ensures
        first_nonblank_before_30(r, i) == j,
    decreases j - i,
{
    if i < j {
        lemma_first_nonblank(r, i + 1, j);
    }
}

/// Parse a fixed-format integer record: the value stands right-justified in
/// bytes 10 through 29, optionally signed, and byte 30 is a space or a slash.
pub fn parse_fixed_int(record: &[u8]) -> (res: Result<isize, FitsFormatError>)
    requires
        record.len() >= 31,
    ensures
        match res {
            Ok(v) => spec_fixed_int(record@) == Ok::<int, FitsFormatError>(v as int),
            Err(e) => spec_fixed_int(record@) == Err::<int, FitsFormatError>(e),
        },
{
    let ghost r = record@;
    if record[30] != SPACE && record[30] != SLASH {
        return Err(FitsFormatError::FixedIntTerminator);
    }
    let mut i: usize = 10;
    while i < 30 && record[i] == SPACE
        invariant
            10 <= i <= 30,
            record.len() >= 31,
            r == record@,
            forall|k: int| 10 <= k < i ==> #[trigger] r[k] == SPACE,
        decreases 30 - i,
    {
        i += 1;
    }
    proof {
        lemma_first_nonblank(r, 10, i as int);
    }
    if i == 30 {
        return Err(FitsFormatError::FixedIntEmpty);
    }
    let ghost i0 = i as int;
    let mut negate = false;
    if record[i] == MINUS {
        negate = true;
        i += 1;
    } else if record[i] == PLUS {
        i += 1;
    }
    if i == 30 {
        return Err(FitsFormatError::FixedIntEmpty);
    }
    let i1 = i;
    let ghost ds = r.subrange(i1 as int, 30);
    let mut value: u128 = 0;
    proof {
        vstd::arithmetic::power::lemma_pow0(10);
    }
    while i < 30
        invariant
            i1 <= i <= 30,
            i1 >= 10,
            record.len() >= 31,
            r == record@,
            ds == r.subrange(i1 as int, 30),
            i0 == first_nonblank_before_30(r, 10),
            10 <= i0 < 30,
            r[30] == SPACE || r[30] == SLASH,
            negate == (r[i0] == MINUS),
            i1 == (if r[i0] == MINUS || r[i0] == PLUS { i0 + 1 } else { i0 }),
            forall|k: int| i1 <= k < i ==> is_digit(#[trigger] r[k]),
            value == digits_value(r.subrange(i1 as int, i as int)),
            value < pow(10, (i - i1) as nat),
        decreases 30 - i,
    {
        let c = record[i];
        if c < DIGIT_ZERO || c > DIGIT_NINE {
            proof {
                assert forall|k: int| 0 <= k < i - i1 implies is_digit(#[trigger] ds[k]) by {
                    assert(ds[k] == r[i1 + k]);
                }
                assert(ds[i - i1] == c);
                lemma_first_non_digit(ds, i - i1);
                assert(!is_digit(ds[i - i1]));
                assert(!all_digits(ds));
                assert(first_nonblank_before_30(r, 10) < 30);
                assert(spec_fixed_int(r) == Err::<int, FitsFormatError>(FitsFormatError::FixedIntDigit(c)));
            }
            return Err(FitsFormatError::FixedIntDigit(c));
        }
        proof {
            vstd::arithmetic::power::lemma_pow_increases(10, (i - i1) as nat, 19);
            reveal_with_fuel(pow, 20);
            assert(r.subrange(i1 as int, i + 1).drop_last() =~= r.subrange(i1 as int, i as int));
            vstd::arithmetic::power::lemma_pow1(10);
            vstd::arithmetic::power::lemma_pow_adds(10, (i - i1) as nat, 1);
        }
        value = value * 10 + (c - DIGIT_ZERO) as u128;
        i += 1;
    }
    proof {
        assert(r.subrange(i1 as int, 30) =~= ds);
        assert forall|k: int| 0 <= k < ds.len() implies is_digit(#[trigger] ds[k]) by {
            assert(ds[k] == r[i1 + k]);
        }
    }
    if negate {
        if value > 9223372036854775808u128 || value > (isize::MAX as u128) + 1 {
            return Err(FitsFormatError::FixedIntOverflow);
        }
        if value == (isize::MAX as u128) + 1 {
            return Ok(isize::MIN);
        }
        Ok(-(value as isize))
    } else {
        if value > isize::MAX as u128 {
            return Err(FitsFormatError::FixedIntOverflow);
        }
        Ok(value as isize)
    }
}

/// `SIMPLE  =                    T`: the start of a FITS stream.
pub const FITS_MARKER: [u8; 30] = [83u8, 73u8, 77u8, 80u8, 76u8, 69u8, 32u8, 32u8, 61u8, 32u8, 32u8, 32u8, 32u8, 32u8, 32u8, 32u8, 32u8, 32u8, 32u8, 32u8, 32u8, 32u8, 32u8, 32u8, 32u8, 32u8, 32u8, 32u8, 32u8, 84u8];
/// `XTENSION= `
pub const XTENSION_MARKER: [u8; 10] = [88u8, 84u8, 69u8, 78u8, 83u8, 73u8, 79u8, 78u8, 61u8, 32u8];
/// `BITPIX  = `
pub const BITPIX_MARKER: [u8; 10] = [66u8, 73u8, 84u8, 80u8, 73u8, 88u8, 32u8, 32u8, 61u8, 32u8];
/// `NAXIS   = `
pub const NAXIS_MARKER: [u8; 10] = [78u8, 65u8, 88u8, 73u8, 83u8, 32u8, 32u8, 32u8, 61u8, 32u8];
/// `GROUPS  =                    T`
pub const GROUPS_MARKER: [u8; 30] = [71u8, 82u8, 79u8, 85u8, 80u8, 83u8, 32u8, 32u8, 61u8, 32u8, 32u8, 32u8, 32u8, 32u8, 32u8, 32u8, 32u8, 32u8, 32u8, 32u8, 32u8, 32u8, 32u8, 32u8, 32u8, 32u8, 32u8, 32u8, 32u8, 84u8];
/// `PCOUNT  = `
pub const PCOUNT_MARKER: [u8; 10] = [80u8, 67u8, 79u8, 85u8, 78u8, 84u8, 32u8, 32u8, 61u8, 32u8];
/// `GCOUNT  = `
pub const GCOUNT_MARKER: [u8; 10] = [71u8, 67u8, 79u8, 85u8, 78u8, 84u8, 32u8, 32u8, 61u8, 32u8];
/// `EXTNAME = `
pub const EXTNAME_MARKER: [u8; 10] = [69u8, 88u8, 84u8, 78u8, 65u8, 77u8, 69u8, 32u8, 61u8, 32u8];
/// `NAXIS`: the stem of the axis-length keywords.
pub const NAXIS_STEM: [u8; 5] = [78u8, 65u8, 88u8, 73u8, 83u8];
/// `END`
pub const END_WORD: [u8; 3] = [69u8, 78u8, 68u8];

/// The length of one header record.
pub const RECORD_LEN: usize = 80;

/// Whether `r` begins with `m`.
pub open spec fn has_prefix(r: Seq<u8>, m: Seq<u8>) -> bool {
    m.len() <= r.len() && r.take(m.len() as int) == m
}

/// Whether `r` begins with the marker `m`.
pub fn record_has_prefix(record: &[u8], marker: &[u8]) -> (b: bool)
    ensures
        b == has_prefix(record@, marker@),
{
    if marker.len() > record.len() {
        return false;
    }
    let mut i: usize = 0;
    while i < marker.len()
        invariant
            i <= marker.len() <= record.len(),
            forall|k: int| 0 <= k < i ==> record@[k] == marker@[k],
        decreases marker.len() - i,
    {
        if record[i] != marker[i] {
            assert(record@.take(marker.len() as int)[i as int] != marker@[i as int]);
            return false;
        }
        i += 1;
    }
    assert(record@.take(marker.len() as int) =~= marker@);
    true
}

/// Whether `r` is the `END` record: `END` and 77 blanks.
pub open spec fn is_end_record(r: Seq<u8>) -> bool {
    &&& r.len() == RECORD_LEN
    &&& has_prefix(r, END_WORD@)
    &&& forall|k: int| 3 <= k < RECORD_LEN ==> #[trigger] r[k] == SPACE
}

/// Whether `record` is the `END` record.
pub fn record_is_end(record: &[u8]) -> (b: bool)
    ensures
        b == is_end_record(record@),
{
    if record.len() != RECORD_LEN || !record_has_prefix(record, END_WORD.as_slice()) {
        return false;
    }
    let mut i: usize = 3;
    while i < RECORD_LEN
        invariant
            3 <= i <= RECORD_LEN,
            record.len() == RECORD_LEN,
            forall|k: int| 3 <= k < i ==> #[trigger] record@[k] == SPACE,
        decreases RECORD_LEN - i,
    {
        if record[i] != SPACE {
            return false;
        }
        i += 1;
    }
    true
}

/// The index of the first space in `r` at or after `i` and before 8 (8 if none).
pub open spec fn first_space_before_8(r: Seq<u8>, i: int) -> int
    decreases 8 - i,
{
    if i >= 8 {
        8
    } else if r[i] == SPACE {
        i
    } else {
        first_space_before_8(r, i + 1)
    }
}

/// The index of the first non-space in `r` at or after `i` and before 8 (8 if none).
pub open spec fn first_nonspace_before_8(r: Seq<u8>, i: int) -> int
    decreases 8 - i,
{
    if i >= 8 {
        8
    } else if r[i] != SPACE {
        i
    } else {
        first_nonspace_before_8(r, i + 1)
    }
}

/// What a header record means to the `NAXISn` bookkeeping when `count`
/// axis lengths are already known: `None` when it does not begin with
/// `NAXIS`, the length of axis `count + 1` when it is that axis's record.
pub open spec fn spec_naxis_record(r: Seq<u8>, count: int) -> Result<Option<int>, FitsFormatError> {
    if !has_prefix(r, NAXIS_STEM@) {
        Ok(None)
    } else if !(r[8] == EQUALS && r[9] == SPACE) {
        Err(FitsFormatError::NaxisMalformed)
    } else {
        let j = first_space_before_8(r, 5);
        let ds = r.subrange(5, j);
        if !all_digits(ds) {
            Err(FitsFormatError::NaxisDigit(ds[first_non_digit(ds)]))
        } else if first_nonspace_before_8(r, j) < 8 {
            Err(FitsFormatError::NaxisSpace(r[first_nonspace_before_8(r, j)]))
        } else if digits_value(ds) != count + 1 {
            Err(FitsFormatError::NaxisMisnumbered { expected: (count + 1) as usize, got: digits_value(ds) as usize })
        } else {
            match spec_fixed_int(r) {
                Err(e) => Err(e),
                Ok(n) => if n < 0 {
                    Err(FitsFormatError::NaxisNegative)
                } else {
                    Ok(Some(n))
                },
            }
        }
    }
}

proof fn lemma_first_space(r: Seq<u8>, i: int, j: int)
    requires
        5 <= i <= j <= 8,
        r.len() >= 31,
        forall|k: int| i <= k < j ==> #[trigger] r[k] != SPACE,
        j == 8 || r[j] == SPACE,
    ensures
        first_space_before_8(r, i) == j,
    decreases j - i,
{
    if i < j {
        lemma_first_space(r, i + 1, j);
    }
}

proof fn lemma_first_space_props(r: Seq<u8>, i: int)
    requires
        5 <= i <= 8,
        r.len() >= 31,
    ensures
        i <= first_space_before_8(r, i) <= 8,
        forall|k: int| i <= k < first_space_before_8(r, i) ==> #[trigger] r[k] != SPACE,
        first_space_before_8(r, i) == 8 || r[first_space_before_8(r, i)] == SPACE,
    decreases 8 - i,
{
    if i < 8 && r[i] != SPACE {
        lemma_first_space_props(r, i + 1);
    }
}

proof fn lemma_first_space_after(r: Seq<u8>, i: int, m: int)
    requires
        5 <= i <= m < 8,
        r.len() >= 31,
        forall|k: int| i <= k <= m ==> #[trigger] r[k] != SPACE,
    ensures
        m < first_space_before_8(r, i),
    decreases 8 - i,
{
    lemma_first_space_props(r, i + 1);
    if i < m {
        lemma_first_space_after(r, i + 1, m);
    }
}

proof fn lemma_first_nonspace(r: Seq<u8>, i: int, j: int)
    requires
        5 <= i <= j <= 8,
        r.len() >= 31,
        forall|k: int| i <= k < j ==> #[trigger] r[k] == SPACE,
        j == 8 || r[j] != SPACE,
    ensures
        first_nonspace_before_8(r, i) == j,
    decreases j - i,
{
    if i < j {
        lemma_first_nonspace(r, i + 1, j);
    }
}

#[verifier::loop_isolation(false)]
/// If `record` is the `NAXISn` record that `naxis` awaits next, append its
/// value to `naxis` and return `true`; return `false` for a record that does
/// not begin with `NAXIS`; fail for one that does but is not the awaited one.
pub fn accumulate_naxis_value(record: &[u8], naxis: &mut Vec<usize>) -> (res: Result<bool, FitsFormatError>)
    requires
        record.len() >= 31,
        old(naxis).len() < usize::MAX,
    ensures
        match spec_naxis_record(record@, old(naxis).len() as int) {
            Ok(None) => res == Ok::<bool, FitsFormatError>(false) && final(naxis)@ == old(naxis)@,
            Ok(Some(n)) => res == Ok::<bool, FitsFormatError>(true) && final(naxis)@ == old(naxis)@.push(n as usize),
            Err(e) => res == Err::<bool, FitsFormatError>(e) && final(naxis)@ == old(naxis)@,
        },
        res == Ok::<bool, FitsFormatError>(true) ==> final(naxis)@.len() < 1000,
{
    let ghost r = record@;
    if !record_has_prefix(record, NAXIS_STEM.as_slice()) {
        return Ok(false);
    }
    if !(record[8] == EQUALS && record[9] == SPACE) {
        return Err(FitsFormatError::NaxisMalformed);
    }
    let mut value: usize = 0;
    let mut i: usize = 5;
    while i < 8 && record[i] != SPACE
        invariant
            5 <= i <= 8,
            record.len() >= 31,
            r == record@,
            forall|k: int| 5 <= k < i ==> is_digit(#[trigger] r[k]),
            forall|k: int| 5 <= k < i ==> #[trigger] r[k] != SPACE,
            value == digits_value(r.subrange(5, i as int)),
            value < 1000,
            i <= 7 ==> value < 100,
            i <= 6 ==> value < 10,
            i == 5 ==> value == 0,
        decreases 8 - i,
    {
        let c = record[i];
        if c < DIGIT_ZERO || c > DIGIT_NINE {
            proof {
                lemma_first_space_props(r, 5);
                let ds = r.subrange(5, first_space_before_8(r, 5));
                lemma_first_space_after(r, 5, i as int);
                assert forall|k: int| 0 <= k < i - 5 implies is_digit(#[trigger] ds[k]) by {
                    assert(ds[k] == r[5 + k]);
                }
                assert(ds[i - 5] == c);
                lemma_first_non_digit(ds, i - 5);
            }
            return Err(FitsFormatError::NaxisDigit(c));
        }
        proof {
            assert(r.subrange(5, i + 1).drop_last() =~= r.subrange(5, i as int));
        }
        value = value * 10 + (c - DIGIT_ZERO) as usize;
        i += 1;
    }
    let j = i;
    proof {
        lemma_first_space(r, 5, j as int);
        let ds = r.subrange(5, j as int);
        assert forall|k: int| 0 <= k < ds.len() implies is_digit(#[trigger] ds[k]) by {
            assert(ds[k] == r[5 + k]);
        }
    }
    while i < 8
        invariant
            j <= i <= 8,
            5 <= j,
            record.len() >= 31,
            r == record@,
            forall|k: int| j <= k < i ==> #[trigger] r[k] == SPACE,
        decreases 8 - i,
    {
        if record[i] != SPACE {
            proof {
                lemma_first_nonspace(r, j as int, i as int);
            }
            return Err(FitsFormatError::NaxisSpace(record[i]));
        }
        i += 1;
    }
    proof {
        lemma_first_nonspace(r, j as int, 8);
    }
    if value != naxis.len() + 1 {
        return Err(FitsFormatError::NaxisMisnumbered { expected: naxis.len() + 1, got: value });
    }
    let n = parse_fixed_int(record)?;
    if n < 0 {
        return Err(FitsFormatError::NaxisNegative);
    }
    naxis.push(n as usize);
    Ok(true)
}

/// Where the scan of a fixed-format string stands.
#[derive(Clone, Copy, Debug, PartialEq, Eq, Structural)]
pub enum StrPhase {
    Chars,
    JustSawQuote,
    PreCommentSpaces,
    Comment,
}

/// The state of a scan of a fixed-format string: the phase, the characters
/// collected so far, whether any were, and where the last non-blank one is.
pub struct StrScan {
    pub phase: StrPhase,
    pub chars: Seq<u8>,
    pub any: bool,
    pub last_nb: int,
}

pub open spec fn is_printable(c: u8) -> bool {
    0x20 <= c <= 0x7e
}

/// The scan of the string field of a fixed-format string record, from byte
/// `11 + i` onward, starting in state `st`.
pub open spec fn scan_string_from(r: Seq<u8>, i: int, st: StrScan) -> Result<StrScan, FitsFormatError>
    decreases 69 - i,
{
    if i >= 69 {
        Ok(st)
    } else {
        let c = r[i + 11];
        if !is_printable(c) {
            Err(FitsFormatError::FixedStringNonPrintable)
        } else {
            match st.phase {
                StrPhase::Comment => Ok(st),
                StrPhase::Chars => if c == QUOTE {
                    scan_string_from(r, i + 1, StrScan { phase: StrPhase::JustSawQuote, chars: st.chars, any: st.any, last_nb: st.last_nb })
                } else {
                    scan_string_from(r, i + 1, StrScan {
                        phase: StrPhase::Chars,
                        chars: st.chars.push(c),
                        any: true,
                        last_nb: if c != SPACE { st.chars.len() as int } else { st.last_nb },
                    })
                },
                StrPhase::JustSawQuote => if c == QUOTE {
                    scan_string_from(r, i + 1, StrScan {
                        phase: StrPhase::Chars,
                        chars: st.chars.push(QUOTE),
                        any: true,
                        last_nb: st.chars.len() as int,
                    })
                } else if c == SPACE {
                    scan_string_from(r, i + 1, StrScan { phase: StrPhase::PreCommentSpaces, chars: st.chars, any: st.any, last_nb: st.last_nb })
                } else if c == SLASH {
                    scan_string_from(r, i + 1, StrScan { phase: StrPhase::Comment, chars: st.chars, any: st.any, last_nb: st.last_nb })
                } else {
                    Err(FitsFormatError::FixedStringAfterQuote(c))
                },
                StrPhase::PreCommentSpaces => if c == SPACE {
                    scan_string_from(r, i + 1, st)
                } else if c == SLASH {
                    scan_string_from(r, i + 1, StrScan { phase: StrPhase::Comment, chars: st.chars, any: st.any, last_nb: st.last_nb })
                } else {
                    Err(FitsFormatError::FixedStringAfterString(c))
                },
            }
        }
    }
}

/// What a fixed-format string record (`= '` in bytes 8 to 10, then the
/// string with quotes doubled, then a closing quote) means: the string with
/// its trailing blanks removed, but for a string of blanks only, which keeps
/// one blank.
pub open spec fn spec_fixed_string(r: Seq<u8>) -> Result<Seq<u8>, FitsFormatError> {
    if !(r[8] == EQUALS && r[9] == SPACE && r[10] == QUOTE) {
        Err(FitsFormatError::FixedStringOpening)
    } else {
        match scan_string_from(r, 0, StrScan { phase: StrPhase::Chars, chars: Seq::empty(), any: false, last_nb: 0 }) {
            Err(e) => Err(e),
            Ok(st) => if st.phase == StrPhase::Chars {
                Err(FitsFormatError::FixedStringUnterminated)
            } else if !st.any {
                Ok(Seq::empty())
            } else {
                Ok(st.chars.take(st.last_nb + 1))
            },
        }
    }
}

/// The bytes of the string in a fixed-format string record.
pub fn fixed_string_bytes(record: &[u8]) -> (res: Result<Vec<u8>, FitsFormatError>)
    requires
        record.len() >= 80,
    ensures
        match res {
            Ok(v) => spec_fixed_string(record@) == Ok::<Seq<u8>, FitsFormatError>(v@),
            Err(e) => spec_fixed_string(record@) == Err::<Seq<u8>, FitsFormatError>(e),
        },
{
    let ghost r = record@;
    if !(record[8] == EQUALS && record[9] == SPACE && record[10] == QUOTE) {
        return Err(FitsFormatError::FixedStringOpening);
    }
    let mut buf: Vec<u8> = Vec::new();
    let mut any_chars = false;
    let mut last_non_blank_pos: usize = 0;
    let mut state = StrPhase::Chars;
    let ghost whole = scan_string_from(r, 0, StrScan { phase: StrPhase::Chars, chars: Seq::empty(), any: false, last_nb: 0 });
    assert(buf@ =~= Seq::<u8>::empty());
    let mut i: usize = 0;
    while i < 69
        invariant_except_break
            i <= 69,
            record.len() >= 80,
            r == record@,
            buf.len() <= i,
            r[8] == EQUALS && r[9] == SPACE && r[10] == QUOTE,
            whole == scan_string_from(r, 0, StrScan { phase: StrPhase::Chars, chars: Seq::empty(), any: false, last_nb: 0 }),
            any_chars ==> last_non_blank_pos < buf.len(),
            !any_chars ==> last_non_blank_pos == 0,
            whole == scan_string_from(r, i as int, StrScan { phase: state, chars: buf@, any: any_chars, last_nb: last_non_blank_pos as int }),
            state != StrPhase::Comment,
        ensures
            buf.len() <= 69,
            any_chars ==> last_non_blank_pos < buf.len(),
            whole == Ok::<StrScan, FitsFormatError>(StrScan { phase: state, chars: buf@, any: any_chars, last_nb: last_non_blank_pos as int }),
        decreases 69 - i,
    {
        let c = record[i + 11];
        let ghost cur = StrScan { phase: state, chars: buf@, any: any_chars, last_nb: last_non_blank_pos as int };
        if c < 0x20 || c > 0x7e {
            assert(whole == Err::<StrScan, FitsFormatError>(FitsFormatError::FixedStringNonPrintable));
            return Err(FitsFormatError::FixedStringNonPrintable);
        }
        match state {
            StrPhase::Chars => {
                if c == QUOTE {
                    state = StrPhase::JustSawQuote;
                } else {
                    if c != SPACE {
                        last_non_blank_pos = buf.len();
                    }
                    buf.push(c);
                    any_chars = true;
                }
            },
            StrPhase::JustSawQuote => {
                if c == QUOTE {
                    last_non_blank_pos = buf.len();
                    buf.push(QUOTE);
                    any_chars = true;
                    state = StrPhase::Chars;
                } else if c == SPACE {
                    state = StrPhase::PreCommentSpaces;
                } else if c == SLASH {
                    state = StrPhase::Comment;
                } else {
                    return Err(FitsFormatError::FixedStringAfterQuote(c));
                }
            },
            StrPhase::PreCommentSpaces => {
                if c == SPACE {
                } else if c == SLASH {
                    state = StrPhase::Comment;
                } else {
                    assert(whole == Err::<StrScan, FitsFormatError>(FitsFormatError::FixedStringAfterString(c)));
                    return Err(FitsFormatError::FixedStringAfterString(c));
                }
            },
            StrPhase::Comment => {
            },
        }
        i += 1;
        if state == StrPhase::Comment {
            if i < 69 {
                let c2 = record[i + 11];
                if c2 < 0x20 || c2 > 0x7e {
                    return Err(FitsFormatError::FixedStringNonPrintable);
                }
            }
            break;
        }
    }
    if state == StrPhase::Chars {
        return Err(FitsFormatError::FixedStringUnterminated);
    }
    if !any_chars {
        return Ok(Vec::new());
    }
    let ghost full = buf@;
    buf.truncate(last_non_blank_pos + 1);
    assert(buf@ =~= full.take(last_non_blank_pos + 1));
    Ok(buf)
}

pub open spec fn scan_wf(st: StrScan) -> bool {
    &&& crate::text::all_ascii(st.chars)
    &&& st.any ==> 0 <= st.last_nb < st.chars.len()
    &&& !st.any ==> st.last_nb == 0
}

proof fn lemma_scan_ascii(r: Seq<u8>, i: int, st: StrScan)
    requires
        scan_wf(st),
    ensures
        scan_string_from(r, i, st) matches Ok(st2) ==> scan_wf(st2),
    decreases 69 - i,
{
    if i < 69 {
        let c = r[i + 11];
        if is_printable(c) {
            let pushed = st.chars.push(c);
            let pushed_q = st.chars.push(QUOTE);
            assert(crate::text::all_ascii(pushed)) by {
                assert forall|k: int| 0 <= k < pushed.len() implies #[trigger] pushed[k] < 128 by {
                    if k < st.chars.len() {
                        assert(pushed[k] == st.chars[k]);
                    }
                }
            }
            assert(crate::text::all_ascii(pushed_q)) by {
                assert forall|k: int| 0 <= k < pushed_q.len() implies #[trigger] pushed_q[k] < 128 by {
                    if k < st.chars.len() {
                        assert(pushed_q[k] == st.chars[k]);
                    }
                }
            }
            lemma_scan_ascii(r, i + 1, StrScan { phase: StrPhase::JustSawQuote, chars: st.chars, any: st.any, last_nb: st.last_nb });
            lemma_scan_ascii(r, i + 1, StrScan { phase: StrPhase::Chars, chars: pushed, any: true, last_nb: if c != SPACE { st.chars.len() as int } else { st.last_nb } });
            lemma_scan_ascii(r, i + 1, StrScan { phase: StrPhase::Chars, chars: pushed_q, any: true, last_nb: st.chars.len() as int });
            lemma_scan_ascii(r, i + 1, StrScan { phase: StrPhase::PreCommentSpaces, chars: st.chars, any: st.any, last_nb: st.last_nb });
            lemma_scan_ascii(r, i + 1, StrScan { phase: StrPhase::Comment, chars: st.chars, any: st.any, last_nb: st.last_nb });
            lemma_scan_ascii(r, i + 1, st);
        }
    }
}

pub proof fn lemma_fixed_string_printable(r: Seq<u8>)
    requires
        r.len() >= 80,
    ensures
        spec_fixed_string(r) matches Ok(b) ==> crate::text::all_ascii(b),
{
    let init = StrScan { phase: StrPhase::Chars, chars: Seq::empty(), any: false, last_nb: 0 };
    lemma_scan_ascii(r, 0, init);
    assert(crate::text::all_ascii(Seq::<u8>::empty()));
    if let Ok(b) = spec_fixed_string(r) {
        if let Ok(st) = scan_string_from(r, 0, init) {
            if st.any {
                assert forall|k: int| 0 <= k < b.len() implies #[trigger] b[k] < 128 by {
                    assert(b[k] == st.chars[k]);
                }
            }
        }
    }
}

/// Parse a fixed-format string record into a `String`.
pub fn parse_fixed_string(record: &[u8]) -> (res: Result<String, FitsFormatError>)
    requires
        record.len() >= 80,
    ensures
        match res {
            Ok(s) => spec_fixed_string(record@) matches Ok(b) && s@ == crate::text::ascii_chars(b),
            Err(e) => spec_fixed_string(record@) == Err::<Seq<u8>, FitsFormatError>(e),
        },
{
    let bytes = fixed_string_bytes(record)?;
    proof {
        lemma_fixed_string_printable(record@);
    }
    Ok(crate::text::ascii_to_string(bytes))
}

} // verus!
