//! MIRIAD "uv" visibility data: the variable table, the stream of variable
//! records, and baseline numbers.
//!
//! The stream is a sequence of entries, each aligned to 8 bytes. An entry
//! starts with four bytes: the variable number, a zero, the entry code and
//! a zero. A size entry (code 0) is followed by the big-endian byte count of
//! the variable's data; a data entry (code 1) by the data, aligned to the
//! variable's type; an end-of-record entry (code 2) by nothing.

use super::header::{pad_amount, push_all, push_zeros, zeros, HeaderItem};
use super::mapped::{lemma_encode_i32s_push, MiriadMappedType};
use super::{MiriadFormatError, Type};
use crate::bytes::{be_u32, lemma_be_i32_round_trip, u32_be_bytes, read_be_i32, write_be_i32};
use crate::text::{all_ascii, ascii_chars, lemma_ascii_utf8, split_whitespace, starts_with, str_starts_with, words};
use vstd::prelude::*;
use vstd::utf8::encode_utf8;

verus! {

/// The kind of correlations that a UV data set holds.
#[derive(Copy, Clone, Debug, Eq, Hash, PartialEq, Structural)]
pub enum ObsType {
    Auto,
    Cross,
    MixedAutoCross,
}

impl ObsType {
    /// The kind of correlations that a data set's `obstype` item names: a
    /// value starting with `auto`, `cross` or `mixed`.
    pub fn from_obstype(s: &str) -> (res: Result<ObsType, MiriadFormatError>)
        ensures
            starts_with(s@, "auto"@) ==> res == Ok::<ObsType, MiriadFormatError>(ObsType::Auto),
            !starts_with(s@, "auto"@) && starts_with(s@, "cross"@) ==> res == Ok::<ObsType, MiriadFormatError>(ObsType::Cross),
            !starts_with(s@, "auto"@) && !starts_with(s@, "cross"@) && starts_with(s@, "mixed"@)
                ==> res == Ok::<ObsType, MiriadFormatError>(ObsType::MixedAutoCross),
            !starts_with(s@, "auto"@) && !starts_with(s@, "cross"@) && !starts_with(s@, "mixed"@)
                ==> (res matches Err(MiriadFormatError::UnexpectedObstype(v)) && v@ == s@),
    {
        if str_starts_with(s, "auto") {
            Ok(ObsType::Auto)
        } else if str_starts_with(s, "cross") {
            Ok(ObsType::Cross)
        } else if str_starts_with(s, "mixed") {
            Ok(ObsType::MixedAutoCross)
        } else {
            Err(MiriadFormatError::UnexpectedObstype(s.to_owned()))
        }
    }
}

/// Information about a "UV variable" defined in the UV data stream.
#[derive(Debug)]
pub struct UvVariable {
    name: String,
    number: u8,
    ty: Type,
    n_vals: isize,
    data: Vec<u8>,
    just_updated: bool,
}

/// A UV variable as plain values.
pub struct VarModel {
    pub name: Seq<char>,
    pub number: u8,
    pub ty: Type,
    pub n_vals: int,
    pub data: Seq<u8>,
    pub just_updated: bool,
}

impl View for UvVariable {
    type V = VarModel;

    closed spec fn view(&self) -> VarModel {
        VarModel {
            name: self.name@,
            number: self.number,
            ty: self.ty,
            n_vals: self.n_vals as int,
            data: self.data@,
            just_updated: self.just_updated,
        }
    }
}

/// A variable whose data are a whole number of values: none before its
/// size is first given (`n_vals` of -1), else `n_vals` of them.
pub open spec fn var_wf(v: VarModel) -> bool {
    &&& v.data.len() % v.ty.spec_size() == 0
    &&& (v.n_vals == -1 && v.data.len() == 0) || (v.n_vals >= 0 && v.data.len() == v.n_vals * v.ty.spec_size())
}

/// A handle on a UV variable: its number in the stream.
#[derive(Copy, Clone, Debug, Eq, Hash, PartialEq, Structural)]
pub struct UvVariableReference(u8);

impl UvVariableReference {
    /// The variable number that this handle refers to.
    pub closed spec fn spec_number(self) -> u8 {
        self.0
    }
}

/// An entry of the UV stream: the size or the data of a variable, or the
/// end of a record.
#[derive(Copy, Clone, Debug, Eq, PartialEq)]
pub enum UvEntry {
    Size(UvVariableReference),
    Data(UvVariableReference),
    EndOfRecord,
}

/// The entry that the stream holds at `off`, by its head.
pub open spec fn entry_kind(b: Seq<u8>, off: int) -> Option<(u8, u8)> {
    if 0 <= off && off + 4 <= b.len() {
        Some((b[off], b[off + 2]))
    } else {
        None
    }
}

impl UvVariable {
    fn new(ty: Type, name: String, number: u8) -> (v: UvVariable)
        ensures
            v@ == (VarModel { name: name@, number, ty, n_vals: -1, data: Seq::empty(), just_updated: false }),
    {
        UvVariable { name, number, ty, n_vals: -1, data: Vec::new(), just_updated: false }
    }

    /// The name of the variable.
    pub fn name(&self) -> (s: &str)
        ensures
            s@ == self@.name,
    {
        self.name.as_str()
    }

    /// The storage type of the variable.
    pub fn type_(&self) -> (t: Type)
        ensures
            t == self@.ty,
    {
        self.ty
    }

    /// How many values the variable holds; -1 before its size is first given.
    pub fn n_vals(&self) -> (n: isize)
        ensures
            n == self@.n_vals,
    {
        self.n_vals
    }

    /// Whether the last record read gave the variable new data.
    pub fn just_updated(&self) -> (b: bool)
        ensures
            b == self@.just_updated,
    {
        self.just_updated
    }

    /// A handle on this variable.
    pub fn as_reference(&self) -> (r: UvVariableReference)
        ensures
            r.spec_number() == self@.number,
    {
        UvVariableReference(self.number)
    }

    /// The raw big-endian bytes of the variable's current values.
    pub fn data(&self) -> (d: &[u8])
        ensures
            d@ == self@.data,
    {
        self.data.as_slice()
    }
}

// ---------------------------------------------------------------------------
// Baselines

/// The antenna pair, counted from 0, of a MIRIAD baseline number: above
/// 65536 the number is `65536 + 2048 * a1 + a2` with `a2` in 1..=2048, else
/// `256 * a1 + a2`, with antennas counted from 1; each antenna must lie in
/// 1..=2048, and the first may not exceed the second.
pub open spec fn spec_decode_baseline(bl: int) -> Result<(int, int), MiriadFormatError> {
    let (a1, a2) = if bl > 65536 {
        ((bl - 65537) / 2048, (bl - 65536) - 2048 * ((bl - 65537) / 2048))
    } else {
        (bl / 256, bl % 256)
    };
    if a1 < 1 || a2 < 1 || a1 > 2048 || a2 > 2048 {
        Err(MiriadFormatError::IllegalBaseline)
    } else if a1 > a2 {
        Err(MiriadFormatError::AntennaOrder)
    } else {
        Ok((a1 - 1, a2 - 1))
    }
}

/// The MIRIAD baseline number of a pair of antennas counted from 0: each at
/// most 2047, the first no larger than the second.
pub open spec fn spec_encode_baseline(ant1: int, ant2: int) -> Result<int, MiriadFormatError> {
    if ant1 > 2047 || ant2 > 2047 {
        Err(MiriadFormatError::AntennaTooLarge)
    } else if ant1 > ant2 {
        Err(MiriadFormatError::AntennaOrder)
    } else if ant2 > 254 {
        Ok(2048 * (ant1 + 1) + (ant2 + 1) + 65536)
    } else {
        Ok(256 * (ant1 + 1) + (ant2 + 1))
    }
}

/// Decode a MIRIAD baseline number (the integer part of the stored value)
/// into its antenna pair, counted from 0.
pub fn decode_baseline_number(bl: isize) -> (res: Result<(usize, usize), MiriadFormatError>)
    ensures
        match spec_decode_baseline(bl as int) {
            Ok((a1, a2)) => res == Ok::<(usize, usize), MiriadFormatError>((a1 as usize, a2 as usize)),
            Err(e) => res == Err::<(usize, usize), MiriadFormatError>(e),
        },
{
    if bl < 256 {
        return Err(MiriadFormatError::IllegalBaseline);
    }
    let (ant1, ant2) = if bl > 65536 {
        let ofs = bl - 65536;
        let ant1 = (ofs - 1) / 2048;
        (ant1, ofs - 2048 * ant1)
    } else {
        let ant1 = bl / 256;
        (ant1, bl - 256 * ant1)
    };
    if ant1 < 1 || ant2 < 1 || ant1 > 2048 || ant2 > 2048 {
        return Err(MiriadFormatError::IllegalBaseline);
    }
    if ant1 > ant2 {
        return Err(MiriadFormatError::AntennaOrder);
    }
    Ok(((ant1 - 1) as usize, (ant2 - 1) as usize))
}

/// Encode a pair of antennas, counted from 0, as a MIRIAD baseline number.
pub fn encode_baseline_number(ant1: usize, ant2: usize) -> (res: Result<usize, MiriadFormatError>)
    ensures
        match spec_encode_baseline(ant1 as int, ant2 as int) {
            Ok(n) => res == Ok::<usize, MiriadFormatError>(n as usize),
            Err(e) => res == Err::<usize, MiriadFormatError>(e),
        },
{
    if ant1 > 2047 || ant2 > 2047 {
        return Err(MiriadFormatError::AntennaTooLarge);
    }
    if ant1 > ant2 {
        return Err(MiriadFormatError::AntennaOrder);
    }
    Ok(if ant2 > 254 {
        2048 * (ant1 + 1) + (ant2 + 1) + 65536
    } else {
        256 * (ant1 + 1) + (ant2 + 1)
    })
}

/// Encoding an antenna pair and decoding the number gives the pair back,
/// for every valid pair: antennas from 0 to 2047, the first no larger than
/// the second.
pub proof fn law_baseline_round_trip(ant1: int, ant2: int)
    requires
        0 <= ant1 <= ant2 <= 2047,
    ensures
        spec_encode_baseline(ant1, ant2) matches Ok(n) && spec_decode_baseline(n) == Ok::<(int, int), MiriadFormatError>((ant1, ant2)),
{
    if ant2 > 254 {
        let n = 2048 * (ant1 + 1) + (ant2 + 1) + 65536;
        assert((n - 65537) / 2048 == ant1 + 1) by (nonlinear_arith)
            requires
                n == 2048 * (ant1 + 1) + (ant2 + 1) + 65536,
                0 <= ant1 <= ant2 <= 2047,
        ;
    } else {
        let n = 256 * (ant1 + 1) + (ant2 + 1);
        assert(n / 256 == ant1 + 1 && n % 256 == ant2 + 1) by (nonlinear_arith)
            requires
                n == 256 * (ant1 + 1) + (ant2 + 1),
                0 <= ant1 <= ant2 <= 254,
        ;
    }
}

/// The two forms of a baseline number: a pair whose second antenna is at
/// most 254 takes the small form `256 * (ant1 + 1) + (ant2 + 1)`, which is
/// at most 65536; any other valid pair takes the large form
/// `65536 + 2048 * (ant1 + 1) + (ant2 + 1)`, which is above 65536. So the
/// number is small exactly when the second antenna is below 255.
pub proof fn law_baseline_forms(ant1: int, ant2: int)
    requires
        0 <= ant1 <= ant2 <= 2047,
    ensures
        ant2 <= 254 ==> spec_encode_baseline(ant1, ant2) == Ok::<int, MiriadFormatError>(256 * (ant1 + 1) + (ant2 + 1)),
        ant2 > 254 ==> spec_encode_baseline(ant1, ant2) == Ok::<int, MiriadFormatError>(65536 + 2048 * (ant1 + 1) + (ant2 + 1)),
        spec_encode_baseline(ant1, ant2) matches Ok(n) && (n <= 65536 <==> ant2 <= 254),
{
}

// ---------------------------------------------------------------------------
// The variable table

/// Why a variable table is refused.
pub enum VartableFault {
    /// A line that is not a type abbreviation and a name.
    BadLine(Seq<char>),
    /// A type abbreviation that names no type.
    BadAbbrev(Seq<char>),
    /// More variables than a record can number.
    TooMany,
}

/// The type and name that a vartable line gives, or why it is refused.
pub open spec fn vartable_line(line: Seq<char>) -> Result<(Type, Seq<char>), VartableFault> {
    let ws = words(line);
    if encode_utf8(line).len() < 3 || ws.len() != 2 {
        Err(VartableFault::BadLine(line))
    } else {
        match Type::spec_from_abbrev(ws[0]) {
            None => Err(VartableFault::BadAbbrev(ws[0])),
            Some(t) => Ok((t, ws[1])),
        }
    }
}

/// The variables that the vartable lines from index `k` on define: each
/// line a type abbreviation and a name, at most 255 of them.
pub open spec fn vartable_from(lines: Seq<Seq<char>>, k: int) -> Result<Seq<(Type, Seq<char>)>, VartableFault>
    decreases lines.len() - k,
{
    if k < 0 || k >= lines.len() {
        Ok(Seq::empty())
    } else {
        match vartable_line(lines[k]) {
            Err(f) => Err(f),
            Ok(en) => if k == 255 {
                Err(VartableFault::TooMany)
            } else {
                match vartable_from(lines, k + 1) {
                    Err(f) => Err(f),
                    Ok(rest) => Ok(seq![en] + rest),
                }
            },
        }
    }
}

/// The freshly defined variables of a vartable: numbered in order, with no
/// size and no data yet.
pub open spec fn fresh_vars(es: Seq<(Type, Seq<char>)>) -> Seq<VarModel> {
    Seq::new(
        es.len(),
        |i: int| VarModel { name: es[i].1, number: i as u8, ty: es[i].0, n_vals: -1, data: Seq::empty(), just_updated: false },
    )
}

// ---------------------------------------------------------------------------
// Decoding

/// A struct that holds state for decoding the MIRIAD UV data format: the
/// variables, the bulk visibility data and the position reached in them.
#[derive(Debug)]
pub struct Decoder {
    eff_vislen: u64,
    vars: Vec<UvVariable>,
    stream: Vec<u8>,
    offset: usize,
}

/// A decoder as plain values.
pub struct DecoderModel {
    /// Where the visibility data end, as the data set's `vislen` says.
    pub eff: int,
    pub vars: Seq<VarModel>,
    pub stream: Seq<u8>,
    /// The stream offset: bytes consumed, counting skips past the end.
    pub offset: int,
}

impl View for Decoder {
    type V = DecoderModel;

    closed spec fn view(&self) -> DecoderModel {
        DecoderModel {
            eff: self.eff_vislen as int,
            vars: self.vars@.map_values(|v: UvVariable| v@),
            stream: self.stream@,
            offset: self.offset as int,
        }
    }
}

/// Variables numbered in order, each holding a whole number of values.
pub open spec fn vars_wf(vars: Seq<VarModel>) -> bool {
    &&& vars.len() <= 255
    &&& forall|i: int| 0 <= i < vars.len() ==> (#[trigger] vars[i]).number == i && var_wf(vars[i])
}

/// A well-formed decoder state.
pub open spec fn decoder_wf(m: DecoderModel) -> bool {
    &&& vars_wf(m.vars)
    &&& 0 <= m.offset <= m.stream.len() + 16
    &&& m.stream.len() <= usize::MAX - 64
    &&& m.eff <= u64::MAX
}

/// The `n` bytes of `b` at `off`, if it holds them; reading nothing always
/// succeeds.
pub open spec fn read_at(b: Seq<u8>, off: int, n: int) -> Option<Seq<u8>> {
    if n == 0 {
        Some(Seq::empty())
    } else if 0 <= off && off + n <= b.len() {
        Some(b.subrange(off, off + n))
    } else {
        None
    }
}

/// The offset after skipping to a multiple of `a` in a stream of `len`
/// bytes: at or past the end the skip reads nothing but still counts; part
/// way into the padding it fails.
pub open spec fn align_at(len: int, off: int, a: int) -> Option<int> {
    let amt = pad_amount(off, a);
    if amt == 0 {
        Some(off)
    } else if off >= len {
        Some(off + amt)
    } else if len - off < amt {
        None
    } else {
        Some(off + amt)
    }
}

/// `d` cut or zero-extended to `n` bytes.
pub open spec fn resize(d: Seq<u8>, n: int) -> Seq<u8> {
    if n <= d.len() {
        d.take(n)
    } else {
        d + Seq::new((n - d.len()) as nat, |i: int| 0u8)
    }
}

/// The effect of the stream entry at `off`: the variables after it, the
/// offset after it, and whether it ends a record.
pub open spec fn decode_entry(vars: Seq<VarModel>, b: Seq<u8>, off: int) -> Result<(Seq<VarModel>, int, bool), MiriadFormatError> {
    match read_at(b, off, 4) {
        None => Err(MiriadFormatError::UnexpectedEof),
        Some(h) => {
            let num = h[0] as int;
            let code = h[2];
            let o1 = off + 4;
            if code == 0 {
                if num >= vars.len() {
                    Err(MiriadFormatError::TooLargeVariableNumber)
                } else {
                    match read_at(b, o1, 4) {
                        None => Err(MiriadFormatError::UnexpectedEof),
                        Some(w) => {
                            let n = (be_u32(w[0], w[1], w[2], w[3]) as i32) as int;
                            let v = vars[num];
                            let sz = v.ty.spec_size() as int;
                            if n < 0 {
                                Err(MiriadFormatError::NegativeDataSize)
                            } else if n % sz != 0 {
                                Err(MiriadFormatError::NonIntegralElements)
                            } else {
                                Ok((
                                    vars.update(num, VarModel {
                                        name: v.name,
                                        number: v.number,
                                        ty: v.ty,
                                        n_vals: n / sz,
                                        data: resize(v.data, n),
                                        just_updated: v.just_updated,
                                    }),
                                    o1 + 4,
                                    false,
                                ))
                            }
                        },
                    }
                }
            } else if code == 1 {
                if num >= vars.len() {
                    Err(MiriadFormatError::TooLargeVariableNumber)
                } else {
                    let v = vars[num];
                    match align_at(b.len() as int, o1, v.ty.spec_alignment() as int) {
                        None => Err(MiriadFormatError::UnexpectedEof),
                        Some(o2) => match read_at(b, o2, v.data.len() as int) {
                            None => Err(MiriadFormatError::UnexpectedEof),
                            Some(d) => Ok((
                                vars.update(num, VarModel {
                                    name: v.name,
                                    number: v.number,
                                    ty: v.ty,
                                    n_vals: v.n_vals,
                                    data: d,
                                    just_updated: true,
                                }),
                                o2 + v.data.len(),
                                false,
                            )),
                        },
                    }
                }
            } else if code == 2 {
                Ok((vars, o1, true))
            } else {
                Err(MiriadFormatError::UnrecognizedRecordCode(code))
            }
        },
    }
}

pub proof fn lemma_decode_entry_advances(vars: Seq<VarModel>, b: Seq<u8>, off: int)
    requires
        vars_wf(vars),
    ensures
        decode_entry(vars, b, off) matches Ok((v2, o2, _)) ==> off + 4 <= o2 <= b.len() + 7 && off + 4 <= b.len()
            && vars_wf(v2) && v2.len() == vars.len(),
{
    match decode_entry(vars, b, off) {
        Ok((v2, o2, _)) => {
            let h = b.subrange(off, off + 4);
            let num = h[0] as int;
            if h[2] == 0 {
                let w = b.subrange(off + 4, off + 8);
                let n = (be_u32(w[0], w[1], w[2], w[3]) as i32) as int;
                let sz = vars[num].ty.spec_size() as int;
                assert(sz > 0);
                assert((n / sz) * sz == n) by (nonlinear_arith)
                    requires
                        sz > 0,
                        n >= 0,
                        n % sz == 0,
                ;
                assert forall|i: int| 0 <= i < v2.len() implies (#[trigger] v2[i]).number == i && var_wf(v2[i]) by {
                    if i == num {
                        assert(v2[i].data.len() == n);
                    }
                }
            } else if h[2] == 1 {
                assert forall|i: int| 0 <= i < v2.len() implies (#[trigger] v2[i]).number == i && var_wf(v2[i]) by {
                    if i == num {
                        assert(v2[i].data.len() == vars[i].data.len());
                    }
                }
            }
        },
        Err(_) => {},
    }
}

/// The element counts of the variables of a well-formed decoder: a variable
/// that no size entry has sized yet has `n_vals == -1` and no data; any
/// other has `n_vals >= 0` and exactly `n_vals` elements of data. `create`
/// gives every variable `-1`, and `next` keeps the decoder well-formed.
pub proof fn law_vars_sized(m: DecoderModel, i: int)
    requires
        decoder_wf(m),
        0 <= i < m.vars.len(),
    ensures
        (m.vars[i].n_vals == -1 && m.vars[i].data.len() == 0) || (m.vars[i].n_vals >= 0 && m.vars[i].data.len()
            == m.vars[i].n_vals * m.vars[i].ty.spec_size()),
{
    assert(var_wf(m.vars[i]));
}

/// How one entry of the stream changes the variables: it touches only the
/// variable whose number it carries; a size entry (code 0) of `n` bytes sets
/// that variable's `n_vals` to `n` divided by the element size, and no
/// other entry changes any `n_vals`.
pub proof fn law_entry_n_vals(vars: Seq<VarModel>, b: Seq<u8>, off: int)
    requires
        vars_wf(vars),
    ensures
        decode_entry(vars, b, off) matches Ok((v2, _, _)) ==> {
            let num = b[off] as int;
            &&& vars_wf(v2)
            &&& v2.len() == vars.len()
            &&& forall|i: int| 0 <= i < vars.len() && i != num ==> #[trigger] v2[i] == vars[i]
            &&& b[off + 2] == 0 ==> v2[num].n_vals == ((be_u32(b[off + 4], b[off + 5], b[off + 6], b[off + 7])
                as i32) as int) / (vars[num].ty.spec_size() as int)
            &&& b[off + 2] != 0 ==> forall|i: int| 0 <= i < vars.len() ==> #[trigger] v2[i].n_vals == vars[i].n_vals
        },
{
    lemma_decode_entry_advances(vars, b, off);
    match decode_entry(vars, b, off) {
        Ok((v2, _, _)) => {
            let h = b.subrange(off, off + 4);
            assert(h[0] == b[off] && h[2] == b[off + 2]);
            if h[2] == 0 {
                let w = b.subrange(off + 4, off + 8);
                assert(w[0] == b[off + 4] && w[1] == b[off + 5] && w[2] == b[off + 6] && w[3] == b[off + 7]);
            }
        },
        Err(_) => {},
    }
}

/// The variables with no "just updated" marks.
pub open spec fn clear_updates(vars: Seq<VarModel>) -> Seq<VarModel> {
    vars.map_values(|v: VarModel| VarModel {
        name: v.name,
        number: v.number,
        ty: v.ty,
        n_vals: v.n_vals,
        data: v.data,
        just_updated: false,
    })
}

/// Decoding from offset `off` up to the end of a record: the result (more
/// data, or `false` at the end of the visibility data as `vislen` gives it),
/// the variables and the offset after it. After every entry the offset is
/// compared with the end and then aligned to 8 bytes. On an error the state
/// is that before the failing entry.
pub open spec fn next_from(vars: Seq<VarModel>, b: Seq<u8>, eff: int, off: int) -> (Result<bool, MiriadFormatError>, Seq<VarModel>, int)
    decreases b.len() + 16 - off,
{
    if !vars_wf(vars) {
        (Err(MiriadFormatError::UnexpectedEof), vars, off)
    } else {
        match decode_entry(vars, b, off) {
            Err(e) => (Err(e), vars, off),
            Ok((v2, o2, eor)) => if o2 >= eff {
                (Ok(false), v2, o2)
            } else {
                match align_at(b.len() as int, o2, 8) {
                    None => (Err(MiriadFormatError::UnexpectedEof), v2, o2),
                    Some(o3) => if eor {
                        (Ok(true), v2, o3)
                    } else {
                        proof {
                            lemma_decode_entry_advances(vars, b, off);
                        }
                        next_from(v2, b, eff, o3)
                    },
                }
            },
        }
    }
}

/// Whether decoding from `off` up to the end of a record, as `next_from`
/// does, meets a size entry (code 0) for variable `i`.
pub open spec fn sized_in_record(vars: Seq<VarModel>, b: Seq<u8>, eff: int, off: int, i: int) -> bool
    decreases b.len() + 16 - off,
{
    if !vars_wf(vars) {
        false
    } else {
        match decode_entry(vars, b, off) {
            Err(_) => false,
            Ok((v2, o2, eor)) => {
                ||| (b[off + 2] == 0 && b[off] as int == i)
                ||| (o2 < eff && !eor && match align_at(b.len() as int, o2, 8) {
                    None => false,
                    Some(o3) => {
                        proof {
                            lemma_decode_entry_advances(vars, b, off);
                        }
                        sized_in_record(v2, b, eff, o3, i)
                    },
                })
            },
        }
    }
}

/// Over a whole `next`: the number of elements of a variable changes only
/// when the record decoded holds a size entry for it. Since `create` starts
/// every variable at `-1`, a variable stays at `-1`, with no data, until a
/// size entry for it is decoded; the variables keep their count.
pub proof fn law_record_n_vals(vars: Seq<VarModel>, b: Seq<u8>, eff: int, off: int, i: int)
    requires
        vars_wf(vars),
        0 <= i < vars.len(),
    ensures
        next_from(vars, b, eff, off).1.len() == vars.len(),
        !sized_in_record(vars, b, eff, off, i) ==> next_from(vars, b, eff, off).1[i].n_vals == vars[i].n_vals,
    decreases b.len() + 16 - off,
{
    law_entry_n_vals(vars, b, off);
    lemma_decode_entry_advances(vars, b, off);
    match decode_entry(vars, b, off) {
        Ok((v2, o2, eor)) => {
            if o2 < eff && !eor {
                match align_at(b.len() as int, o2, 8) {
                    Some(o3) => {
                        law_record_n_vals(v2, b, eff, o3, i);
                    },
                    None => {},
                }
            }
        },
        Err(_) => {},
    }
}

/// The decoder that a vartable, a `vislen` and the visibility data make.
pub open spec fn created_decoder(vislen: i64, es: Seq<(Type, Seq<char>)>, stream: Seq<u8>) -> DecoderModel {
    DecoderModel { eff: (vislen as u64) - 4, vars: fresh_vars(es), stream, offset: 0 }
}

impl Decoder {
    /// Set up decoding from the `vislen` item of a data set (the length of
    /// its visibility data plus 4), the lines of its `vartable` item and the
    /// bytes of its `visdata` item.
    pub fn create(vislen: i64, vartable: &[String], visdata: Vec<u8>) -> (res: Result<Decoder, MiriadFormatError>)
        requires
            !(0 <= vislen < 4),
            visdata@.len() <= usize::MAX - 64,
        ensures
            match vartable_from(vartable.deep_view(), 0) {
                Ok(es) => res matches Ok(d) && d@ == created_decoder(vislen, es, visdata@) && decoder_wf(d@),
                Err(VartableFault::BadLine(l)) => res matches Err(MiriadFormatError::IllegalVartableLine(s)) && s@ == l,
                Err(VartableFault::BadAbbrev(a)) => res matches Err(MiriadFormatError::IllegalTypeAbbrev(s)) && s@ == a,
                Err(VartableFault::TooMany) => res matches Err(MiriadFormatError::TooManyVariables),
            },
    {
        let ghost lines = vartable.deep_view();
        let ghost whole = vartable_from(lines, 0);
        let mut vars: Vec<UvVariable> = Vec::new();
        let ghost mut es: Seq<(Type, Seq<char>)> = Seq::empty();
        let mut k: usize = 0;
        assert(es + Seq::<(Type, Seq<char>)>::empty() =~= es);
        while k < vartable.len()
            invariant
                lines == vartable.deep_view(),
                whole == vartable_from(lines, 0),
                k <= vartable.len(),
                k <= 255,
                es.len() == k,
                vars@.map_values(|v: UvVariable| v@) == fresh_vars(es),
                whole == match vartable_from(lines, k as int) {
                    Ok(rest) => Ok::<Seq<(Type, Seq<char>)>, VartableFault>(es + rest),
                    Err(f) => Err(f),
                },
            decreases vartable.len() - k,
        {
            let line = &vartable[k];
            assert(line@ == lines[k as int]);
            let line_len = line.as_str().as_bytes().len();
            if line_len < 3 {
                return Err(MiriadFormatError::IllegalVartableLine(line.clone()));
            }
            let pieces = split_whitespace(line.as_str());
            assert(pieces.deep_view().len() == pieces@.len());
            if pieces.len() != 2 {
                return Err(MiriadFormatError::IllegalVartableLine(line.clone()));
            }
            assert(pieces.deep_view()[0] == pieces@[0]@ && pieces.deep_view()[1] == pieces@[1]@);
            let ty = Type::try_from_abbrev(pieces[0].as_str())?;
            if k == 255 {
                return Err(MiriadFormatError::TooManyVariables);
            }
            let name = pieces[1].clone();
            let v = UvVariable::new(ty, name, k as u8);
            let ghost before = vars@.map_values(|v: UvVariable| v@);
            vars.push(v);
            proof {
                let en = (ty, pieces@[1]@);
                let es2 = es.push(en);
                assert(vars@.map_values(|v: UvVariable| v@) =~= before.push(v@));
                assert forall|i: int| 0 <= i < es2.len() implies #[trigger] fresh_vars(es2)[i] == before.push(v@)[i] by {
                    if i < es.len() {
                        assert(es2[i] == es[i]);
                        assert(before[i] == fresh_vars(es)[i]);
                    }
                }
                assert(fresh_vars(es2) =~= before.push(v@));
                match vartable_from(lines, k + 1) {
                    Ok(rest) => {
                        assert(es + (seq![en] + rest) =~= es2 + rest);
                    },
                    Err(_) => {},
                }
                es = es2;
            }
            k += 1;
        }
        assert(es + Seq::<(Type, Seq<char>)>::empty() =~= es);
        assert(vislen < 0 ==> (vislen as u64) >= 0x8000_0000_0000_0000u64) by (bit_vector);
        let eff = (#[verifier::truncate] (vislen as u64)) - 4;
        let d = Decoder { eff_vislen: eff, vars, stream: visdata, offset: 0 };
        assert(d@.vars == fresh_vars(es));
        Ok(d)
    }

    /// The current position in the bulk visibility data.
    pub fn position(&self) -> (p: u64)
        requires
            decoder_wf(self@),
        ensures
            p == self@.offset,
    {
        self.offset as u64
    }

    /// The size of the bulk visibility data in bytes, as `vislen` gives it.
    pub fn visdata_bytes(&self) -> (n: u64)
        ensures
            n == self@.eff,
    {
        self.eff_vislen
    }

    /// Read the next entry of the stream, whatever it is, without starting
    /// a new record: the stepping of a diagnostic dump. The variables and
    /// the offset change as `next` changes them for the entry.
    pub fn read_entry(&mut self) -> (res: Result<UvEntry, MiriadFormatError>)
        requires
            decoder_wf(old(self)@),
        ensures
            decoder_wf(final(self)@),
            final(self)@.stream == old(self)@.stream,
            final(self)@.eff == old(self)@.eff,
            match decode_entry(old(self)@.vars, old(self)@.stream, old(self)@.offset) {
                Ok((v2, o2, eor)) => {
                    &&& final(self)@.vars == v2
                    &&& final(self)@.offset == o2
                    &&& entry_kind(old(self)@.stream, old(self)@.offset) matches Some((num, code))
                    &&& res matches Ok(en) && match en {
                        UvEntry::Size(r) => code == 0 && r.spec_number() == num,
                        UvEntry::Data(r) => code == 1 && r.spec_number() == num,
                        UvEntry::EndOfRecord => code == 2 && eor,
                    }
                },
                Err(e) => res == Err::<UvEntry, MiriadFormatError>(e) && final(self)@ == old(self)@,
            },
    {
        let ghost v0 = self@.vars;
        let ghost o0 = self@.offset;
        let off = self.offset;
        let head = if off <= self.stream.len() && self.stream.len() - off >= 4 {
            Some((self.stream[off], self.stream[off + 2]))
        } else {
            None
        };
        let eor = self.step_entry()?;
        proof {
            lemma_decode_entry_advances(v0, self@.stream, o0);
        }
        match head {
            Some((num, code)) => {
                if code == 0 {
                    Ok(UvEntry::Size(UvVariableReference(num)))
                } else if code == 1 {
                    Ok(UvEntry::Data(UvVariableReference(num)))
                } else {
                    Ok(UvEntry::EndOfRecord)
                }
            },
            None => Err(MiriadFormatError::UnexpectedEof),
        }
    }

    /// Whether the offset has reached the end of the visibility data, as
    /// `vislen` gives it.
    pub fn at_end(&self) -> (b: bool)
        ensures
            b == (self@.offset >= self@.eff),
    {
        self.offset as u64 >= self.eff_vislen
    }

    /// Skip to the 8-byte alignment at which the next entry starts.
    pub fn align_record(&mut self) -> (res: Result<(), MiriadFormatError>)
        requires
            decoder_wf(old(self)@),
            old(self)@.offset <= old(self)@.stream.len() + 8,
        ensures
            final(self)@.stream == old(self)@.stream,
            final(self)@.eff == old(self)@.eff,
            final(self)@.vars == old(self)@.vars,
            match align_at(old(self)@.stream.len() as int, old(self)@.offset, 8) {
                Some(o) => res is Ok && final(self)@.offset == o,
                None => res is Err && res->Err_0 == MiriadFormatError::UnexpectedEof && final(self)@ == old(self)@,
            },
            decoder_wf(final(self)@),
    {
        let len = self.stream.len();
        let o2 = self.offset;
        let excess = o2 % 8;
        if excess != 0 {
            let amt = 8 - excess;
            if o2 < len && len - o2 < amt {
                return Err(MiriadFormatError::UnexpectedEof);
            }
            self.offset = o2 + amt;
        }
        Ok(())
    }

    fn step_entry(&mut self) -> (res: Result<bool, MiriadFormatError>)
        requires
            decoder_wf(old(self)@),
        ensures
            final(self)@.stream == old(self)@.stream,
            final(self)@.eff == old(self)@.eff,
            match decode_entry(old(self)@.vars, old(self)@.stream, old(self)@.offset) {
                Ok((v2, o2, eor)) => res == Ok::<bool, MiriadFormatError>(eor) && final(self)@.vars == v2
                    && final(self)@.offset == o2,
                Err(e) => res == Err::<bool, MiriadFormatError>(e) && final(self)@.vars == old(self)@.vars
                    && final(self)@.offset == old(self)@.offset,
            },
    {
        let ghost vars0 = self@.vars;
        let len = self.stream.len();
        let off = self.offset;
        if !(off <= len && len - off >= 4) {
            return Err(MiriadFormatError::UnexpectedEof);
        }
        let num = self.stream[off] as usize;
        let code = self.stream[off + 2];
        let o1 = off + 4;
        proof {
            let h = self.stream@.subrange(off as int, off + 4);
            assert(h[0] == self.stream@[off as int] && h[2] == self.stream@[off + 2]);
        }
        if code == 0 {
            if num >= self.vars.len() {
                return Err(MiriadFormatError::TooLargeVariableNumber);
            }
            if len - o1 < 4 {
                return Err(MiriadFormatError::UnexpectedEof);
            }
            let w = vstd::slice::slice_subrange(self.stream.as_slice(), o1, o1 + 4);
            let n = read_be_i32(w);
            let sz = self.vars[num].ty.size();
            if n < 0 {
                return Err(MiriadFormatError::NegativeDataSize);
            }
            let nb = n as usize;
            if nb % sz != 0 {
                return Err(MiriadFormatError::NonIntegralElements);
            }
            self.vars[num].n_vals = (nb / sz) as isize;
            self.vars[num].data.resize(nb, 0u8);
            self.offset = o1 + 4;
            proof {
                let v = vars0[num as int];
                let nv = self.vars@[num as int]@;
                assert(nv.data =~= resize(v.data, nb as int));
                assert(self@.vars =~= vars0.update(num as int, VarModel {
                    name: v.name,
                    number: v.number,
                    ty: v.ty,
                    n_vals: (nb / sz) as int,
                    data: resize(v.data, nb as int),
                    just_updated: v.just_updated,
                }));
            }
            Ok(false)
        } else if code == 1 {
            if num >= self.vars.len() {
                return Err(MiriadFormatError::TooLargeVariableNumber);
            }
            let al = self.vars[num].ty.alignment() as usize;
            let excess = o1 % al;
            let o2 = if excess == 0 {
                o1
            } else {
                let amt = al - excess;
                if o1 >= len {
                    o1 + amt
                } else if len - o1 < amt {
                    return Err(MiriadFormatError::UnexpectedEof);
                } else {
                    o1 + amt
                }
            };
            let n = self.vars[num].data.len();
            if n != 0 && !(o2 <= len && len - o2 >= n) {
                return Err(MiriadFormatError::UnexpectedEof);
            }
            let d = if n == 0 {
                Vec::new()
            } else {
                vstd::slice::slice_to_vec(vstd::slice::slice_subrange(self.stream.as_slice(), o2, o2 + n))
            };
            self.vars[num].data = d;
            self.vars[num].just_updated = true;
            self.offset = o2 + n;
            proof {
                let v = vars0[num as int];
                assert(self@.vars =~= vars0.update(num as int, VarModel {
                    name: v.name,
                    number: v.number,
                    ty: v.ty,
                    n_vals: v.n_vals,
                    data: d@,
                    just_updated: true,
                }));
            }
            Ok(false)
        } else if code == 2 {
            self.offset = o1;
            Ok(true)
        } else {
            Err(MiriadFormatError::UnrecognizedRecordCode(code))
        }
    }

    /// Read the next record of the visibility data. Returns `Ok(true)` when
    /// a record was read and more may follow, `Ok(false)` when the end of
    /// the visibility data, as `vislen` gives it, is reached.
    pub fn next(&mut self) -> (res: Result<bool, MiriadFormatError>)
        requires
            decoder_wf(old(self)@),
        ensures
            decoder_wf(final(self)@),
            final(self)@.stream == old(self)@.stream,
            final(self)@.eff == old(self)@.eff,
            ({
                let r = next_from(clear_updates(old(self)@.vars), old(self)@.stream, old(self)@.eff, old(self)@.offset);
                res == r.0 && final(self)@.vars == r.1 && final(self)@.offset == r.2
            }),
            forall|i: int|
                0 <= i < old(self)@.vars.len() && !sized_in_record(
                    clear_updates(old(self)@.vars),
                    old(self)@.stream,
                    old(self)@.eff,
                    old(self)@.offset,
                    i,
                ) ==> #[trigger] final(self)@.vars[i].n_vals == old(self)@.vars[i].n_vals,
    {
        proof {
            let m = self@;
            let cv = clear_updates(m.vars);
            assert forall|i: int| 0 <= i < cv.len() implies (#[trigger] cv[i]).number == i && var_wf(cv[i]) by {
                assert(m.vars[i].number == i && var_wf(m.vars[i]));
            }
            assert(vars_wf(cv));
            assert forall|i: int| 0 <= i < m.vars.len() && !sized_in_record(cv, m.stream, m.eff, m.offset, i)
                implies #[trigger] next_from(cv, m.stream, m.eff, m.offset).1[i].n_vals == m.vars[i].n_vals by {
                law_record_n_vals(cv, m.stream, m.eff, m.offset, i);
            }
        }
        self.next_record()
    }

    /// Decode one record, as `next` does.
    fn next_record(&mut self) -> (res: Result<bool, MiriadFormatError>)
        requires
            decoder_wf(old(self)@),
        ensures
            decoder_wf(final(self)@),
            final(self)@.stream == old(self)@.stream,
            final(self)@.eff == old(self)@.eff,
            ({
                let r = next_from(clear_updates(old(self)@.vars), old(self)@.stream, old(self)@.eff, old(self)@.offset);
                res == r.0 && final(self)@.vars == r.1 && final(self)@.offset == r.2
            }),
    {
        let ghost s0 = self@.stream;
        let ghost e0 = self@.eff;
        let ghost vars0 = self@.vars;
        let mut i: usize = 0;
        while i < self.vars.len()
            invariant
                i <= self.vars@.len(),
                self@.stream == s0,
                self@.eff == e0,
                s0 == old(self)@.stream,
                e0 == old(self)@.eff,
                vars0 == old(self)@.vars,
                self@.offset == old(self)@.offset,
                self.vars@.len() == vars0.len(),
                forall|j: int| 0 <= j < i ==> #[trigger] self.vars@[j]@ == clear_updates(vars0)[j],
                forall|j: int| i <= j < vars0.len() ==> #[trigger] self.vars@[j]@ == vars0[j],
            decreases self.vars@.len() - i,
        {
            let ghost before = self.vars@;
            assert(before[i as int]@ == vars0[i as int]);
            self.vars[i].just_updated = false;
            proof {
                let nv = self.vars@[i as int]@;
                assert(nv.name == vars0[i as int].name && nv.data == vars0[i as int].data && nv.just_updated == false);
                assert(self.vars@[i as int]@ == clear_updates(vars0)[i as int]);
                assert forall|j: int| 0 <= j < self.vars@.len() && j != i implies #[trigger] self.vars@[j] == before[j] by {}
            }
            i += 1;
        }
        assert(self@.vars =~= clear_updates(vars0));
        let ghost target = next_from(self@.vars, s0, e0, self@.offset);
        assert(target == next_from(clear_updates(old(self)@.vars), old(self)@.stream, old(self)@.eff, old(self)@.offset));
        loop
            invariant
                decoder_wf(self@),
                self@.stream == s0,
                self@.eff == e0,
                s0 == old(self)@.stream,
                e0 == old(self)@.eff,
                target == next_from(clear_updates(old(self)@.vars), old(self)@.stream, old(self)@.eff, old(self)@.offset),
                target == next_from(self@.vars, s0, e0, self@.offset),
            decreases s0.len() + 16 - self@.offset,
        {
            let ghost v1 = self@.vars;
            let ghost o1 = self@.offset;
            let eor = match self.step_entry() {
                Ok(b) => b,
                Err(e) => {
                    return Err(e);
                },
            };
            proof {
                lemma_decode_entry_advances(v1, s0, o1);
            }
            if self.offset as u64 >= self.eff_vislen {
                return Ok(false);
            }
            let len = self.stream.len();
            let o2 = self.offset;
            let excess = o2 % 8;
            if excess != 0 {
                let amt = 8 - excess;
                if o2 < len && len - o2 < amt {
                    return Err(MiriadFormatError::UnexpectedEof);
                }
                self.offset = o2 + amt;
            }
            if eor {
                return Ok(true);
            }
        }
    }

    /// The variables of the stream, in order of their numbers.
    pub fn variables(&self) -> (it: UvVariablesIterator<'_>)
        ensures
            it@ == self@.vars,
    {
        UvVariablesIterator { vars: self.vars.as_slice(), pos: 0 }
    }

    /// The variable of this name: the last one in the vartable, if the name
    /// occurs more than once.
    pub fn lookup_variable(&self, var_name: &str) -> (r: Option<UvVariableReference>)
        requires
            vars_wf(self@.vars),
        ensures
            match last_named(self@.vars, var_name@, self@.vars.len() as int) {
                Some(i) => r matches Some(rr) && rr.spec_number() == i,
                None => r is None,
            },
    {
        let target = var_name.to_owned();
        let mut i = self.vars.len();
        while i > 0
            invariant
                i <= self.vars@.len(),
                target@ == var_name@,
                vars_wf(self@.vars),
                last_named(self@.vars, var_name@, self@.vars.len() as int) == last_named(self@.vars, var_name@, i as int),
            decreases i,
        {
            assert(self@.vars[i - 1] == self.vars@[i - 1]@);
            if self.vars[i - 1].name == target {
                return Some(UvVariableReference((i - 1) as u8));
            }
            i -= 1;
        }
        None
    }

    /// The variable that a handle refers to.
    pub fn get_var(&self, var: UvVariableReference) -> (v: &UvVariable)
        requires
            (var.spec_number() as int) < self@.vars.len(),
        ensures
            v@ == self@.vars[var.spec_number() as int],
    {
        &self.vars[var.0 as usize]
    }

    /// Decode the current values of a variable into `buf`; the Rust type
    /// must map onto the variable's type.
    pub fn get_data<T: MiriadMappedType>(&self, var: UvVariableReference, buf: &mut Vec<T>)
        requires
            vars_wf(self@.vars),
            (var.spec_number() as int) < self@.vars.len(),
            T::spec_type() == self@.vars[var.spec_number() as int].ty,
        ensures
            final(buf).deep_view() == T::spec_decode(self@.vars[var.spec_number() as int].data),
    {
        let v = &self.vars[var.0 as usize];
        proof {
            T::lemma_decodable(v.data@);
        }
        T::decode_buf_into_vec(v.data.as_slice(), buf);
    }

    /// The first current value of a variable; the Rust type must map onto
    /// the variable's type and the variable must hold a value.
    pub fn get_scalar<T: MiriadMappedType>(&self, var: UvVariableReference) -> (x: T)
        requires
            vars_wf(self@.vars),
            (var.spec_number() as int) < self@.vars.len(),
            T::spec_type() == self@.vars[var.spec_number() as int].ty,
            T::spec_decode(self@.vars[var.spec_number() as int].data).len() > 0,
        ensures
            x.deep_view() == T::spec_decode(self@.vars[var.spec_number() as int].data)[0],
    {
        let mut buf: Vec<T> = Vec::new();
        self.get_data(var, &mut buf);
        assert(buf.deep_view()[0] == buf@[0].deep_view());
        buf.swap_remove(0)
    }
}

/// The index of the last of the first `n` variables that has this name.
pub open spec fn last_named(vars: Seq<VarModel>, name: Seq<char>, n: int) -> Option<int>
    decreases n,
{
    if n <= 0 {
        None
    } else if vars[n - 1].name == name {
        Some(n - 1)
    } else {
        last_named(vars, name, n - 1)
    }
}

pub proof fn lemma_last_named_bound(vars: Seq<VarModel>, name: Seq<char>, n: int)
    ensures
        last_named(vars, name, n) matches Some(i) ==> 0 <= i < n && vars[i].name == name,
    decreases n,
{
    if n > 0 && vars[n - 1].name != name {
        lemma_last_named_bound(vars, name, n - 1);
    }
}

/// An iterator over the variables of a UV data stream.
#[derive(Debug)]
pub struct UvVariablesIterator<'a> {
    vars: &'a [UvVariable],
    pos: usize,
}

impl<'a> View for UvVariablesIterator<'a> {
    type V = Seq<VarModel>;

    /// The variables not yet handed out.
    closed spec fn view(&self) -> Seq<VarModel> {
        let all = self.vars@.map_values(|v: UvVariable| v@);
        if self.pos <= all.len() {
            all.skip(self.pos as int)
        } else {
            Seq::empty()
        }
    }
}

impl<'a> UvVariablesIterator<'a> {
    /// The next variable, if any remain.
    pub fn next(&mut self) -> (r: Option<&'a UvVariable>)
        ensures
            old(self)@.len() == 0 ==> r is None && final(self)@ == old(self)@,
            old(self)@.len() > 0 ==> (r matches Some(v) && v@ == old(self)@[0]) && final(self)@ == old(self)@.drop_first(),
    {
        if self.pos < self.vars.len() {
            let v = &self.vars[self.pos];
            assert(old(self)@[0] == self.vars@.map_values(|v: UvVariable| v@)[self.pos as int]);
            assert(old(self)@[0] == self.vars@[self.pos as int]@);
            self.pos += 1;
            assert(self@ =~= old(self)@.drop_first());
            Some(v)
        } else {
            None
        }
    }
}

// ---------------------------------------------------------------------------
// Encoding

/// The name of the variable that gives the number of spectral channels.
pub open spec fn nschan_name() -> Seq<char> {
    seq!['n', 's', 'c', 'h', 'a', 'n']
}

/// Whether a name is `nschan`.
fn is_nschan(name: &str) -> (b: bool)
    ensures
        b == (name@ == nschan_name()),
{
    let bytes = name.as_bytes();
    let ghost want: Seq<u8> = seq![110u8, 115u8, 99u8, 104u8, 97u8, 110u8];
    proof {
        lemma_ascii_utf8(want);
        assert(ascii_chars(want) =~= nschan_name());
        vstd::utf8::encode_utf8_decode_utf8(name@);
        vstd::utf8::encode_utf8_valid_utf8(name@);
        if name@ == nschan_name() {
            vstd::utf8::decode_utf8_encode_utf8(want);
        }
    }
    let r = bytes.len() == 6 && bytes[0] == 110u8 && bytes[1] == 115u8 && bytes[2] == 99u8 && bytes[3] == 104u8
        && bytes[4] == 97u8 && bytes[5] == 110u8;
    proof {
        if r {
            assert(bytes@ =~= want);
        }
    }
    r
}

/// The channel count that a `nschan` value gives: its last four-byte
/// value, or 0 when it holds none.
pub open spec fn nschan_total(d: Seq<u8>) -> int {
    if d.len() >= 4 {
        last_i32(d) as int
    } else {
        0
    }
}

/// The last four-byte value of `d`, big-endian.
pub open spec fn last_i32(d: Seq<u8>) -> i64 {
    let n = d.len() as int;
    (be_u32(d[n - 4], d[n - 3], d[n - 2], d[n - 1]) as i32) as i64
}

fn read_last_i32(d: &[u8]) -> (v: i64)
    requires
        d@.len() >= 4,
    ensures
        v == last_i32(d@),
{
    let n = d.len();
    read_be_i32(vstd::slice::slice_subrange(d, n - 4, n)) as i64
}

/// The channel count that an `nschan` value of `i32`s gives is its last
/// value, whatever the values before it.
pub proof fn law_nschan_is_last(values: Seq<i32>)
    requires
        values.len() > 0,
    ensures
        nschan_total(<i32 as MiriadMappedType>::spec_encode(values)) == values.last() as int,
{
    let init = values.drop_last();
    let v = values.last();
    assert(init.push(v) =~= values);
    lemma_encode_i32s_push(init, v);
    let e = <i32 as MiriadMappedType>::spec_encode(values);
    let b = u32_be_bytes(v as u32);
    let n = e.len() as int;
    assert(e == super::mapped::encode_i32s(init) + b);
    assert(n >= 4);
    assert(e[n - 4] == b[0] && e[n - 3] == b[1] && e[n - 2] == b[2] && e[n - 1] == b[3]);
    lemma_be_i32_round_trip(v);
}

/// A struct that holds state for writing a variable stream in the MIRIAD UV
/// data format: the variables, what has been written of each, the stream
/// offset and the channel counts.
#[derive(Debug)]
pub struct Encoder {
    vars: Vec<UvVariable>,
    offset: u64,
    tot_nschan: i64,
    tot_nwchan: i64,
    ncorr: i64,
    nwcorr: i64,
    flushed: bool,
}

/// An encoder as plain values.
pub struct EncoderModel {
    pub vars: Seq<VarModel>,
    pub offset: int,
    pub tot_nschan: int,
    pub tot_nwchan: int,
    pub ncorr: int,
    pub nwcorr: int,
    pub flushed: bool,
}

impl View for Encoder {
    type V = EncoderModel;

    closed spec fn view(&self) -> EncoderModel {
        EncoderModel {
            vars: self.vars@.map_values(|v: UvVariable| v@),
            offset: self.offset as int,
            tot_nschan: self.tot_nschan as int,
            tot_nwchan: self.tot_nwchan as int,
            ncorr: self.ncorr as int,
            nwcorr: self.nwcorr as int,
            flushed: self.flushed,
        }
    }
}

/// Variables numbered in order.
pub open spec fn encoder_wf(m: EncoderModel) -> bool {
    &&& m.vars.len() <= 255
    &&& forall|i: int| 0 <= i < m.vars.len() ==> (#[trigger] m.vars[i]).number == i
}

/// The variables of a template, with no size and no data yet.
pub open spec fn emptied_vars(vars: Seq<VarModel>) -> Seq<VarModel> {
    vars.map_values(|v: VarModel| VarModel {
        name: v.name,
        number: v.number,
        ty: v.ty,
        n_vals: -1,
        data: Seq::empty(),
        just_updated: v.just_updated,
    })
}

/// One vartable line: the type abbreviation, a space, the name, a newline.
pub open spec fn vartable_line_bytes(v: VarModel) -> Seq<u8> {
    seq![v.ty.spec_abbrev_char() as u8, 32u8] + encode_utf8(v.name) + seq![10u8]
}

/// The text of the vartable that defines `vars`, one line each, in order.
pub open spec fn vartable_text(vars: Seq<VarModel>) -> Seq<u8>
    decreases vars.len(),
{
    if vars.len() == 0 {
        Seq::empty()
    } else {
        vartable_text(vars.drop_last()) + vartable_line_bytes(vars.last())
    }
}

/// The bytes of a data entry for variable `num`, written at stream offset
/// `off`: zeros up to a multiple of 8; a size entry giving `size` bytes, if
/// there is one; the data entry's head; zeros up to `align`; the data.
pub open spec fn emit_var(num: u8, off: int, size: Option<i32>, align: int, data: Seq<u8>) -> Seq<u8> {
    let head = zeros(pad_amount(off, 8)) + match size {
        Some(nb) => seq![num, 0u8, 0u8, 0u8] + u32_be_bytes(nb as u32),
        None => Seq::<u8>::empty(),
    };
    let o2 = off + head.len() + 4;
    head + seq![num, 0u8, 1u8, 0u8] + zeros(pad_amount(o2, align)) + data
}

/// The bytes that end a record written at stream offset `off`.
pub open spec fn emit_eor(off: int) -> Seq<u8> {
    zeros(pad_amount(off, 8)) + seq![0u8, 0u8, 2u8, 0u8]
}

/// Append zeros to `out`, written at stream offset `off`, up to a multiple
/// of `a`; returns the new offset.
fn push_pad(out: &mut Vec<u8>, off: u64, a: u64) -> (o: u64)
    requires
        1 <= a <= 8,
        off + 8 <= u64::MAX,
    ensures
        final(out)@ == old(out)@ + zeros(pad_amount(off as int, a as int)),
        o == off + pad_amount(off as int, a as int),
{
    let excess = off % a;
    if excess == 0 {
        proof {
            assert(old(out)@ + zeros(0) =~= old(out)@);
        }
        off
    } else {
        push_zeros(out, (a - excess) as usize);
        off + (a - excess)
    }
}

impl Encoder {
    /// Set up writing a stream with the variables of `template`: the
    /// encoder, with no variable sized yet, and the text of its vartable.
    pub fn new_like(template: &Decoder) -> (res: (Encoder, Vec<u8>))
        requires
            decoder_wf(template@),
        ensures
            res.0@ == (EncoderModel {
                vars: emptied_vars(template@.vars),
                offset: 0,
                tot_nschan: 0,
                tot_nwchan: 0,
                ncorr: 0,
                nwcorr: 0,
                flushed: false,
            }),
            encoder_wf(res.0@),
            res.1@ == vartable_text(template@.vars),
    {
        let ghost tv = template@.vars;
        let mut vars: Vec<UvVariable> = Vec::new();
        let mut text: Vec<u8> = Vec::new();
        let mut i: usize = 0;
        while i < template.vars.len()
            invariant
                i <= template.vars@.len(),
                tv == template@.vars,
                vars@.map_values(|v: UvVariable| v@) == emptied_vars(tv.take(i as int)),
                text@ == vartable_text(tv.take(i as int)),
            decreases template.vars@.len() - i,
        {
            let v = &template.vars[i];
            assert(tv[i as int] == v@);
            let nv = UvVariable {
                name: v.name.clone(),
                number: v.number,
                ty: v.ty,
                n_vals: -1,
                data: Vec::new(),
                just_updated: v.just_updated,
            };
            let ghost before = vars@.map_values(|v: UvVariable| v@);
            vars.push(nv);
            let ghost tb = text@;
            text.push((v.ty.abbrev_char() as u32) as u8);
            text.push(32u8);
            push_all(&mut text, v.name.as_str().as_bytes());
            text.push(10u8);
            proof {
                assert(vars@.map_values(|v: UvVariable| v@) =~= before.push(nv@));
                assert(tv.take(i + 1).drop_last() =~= tv.take(i as int));
                assert(emptied_vars(tv.take(i + 1)) =~= emptied_vars(tv.take(i as int)).push(nv@));
                assert(text@ =~= tb + vartable_line_bytes(v@));
            }
            i += 1;
        }
        assert(tv.take(tv.len() as int) =~= tv);
        let e = Encoder { vars, offset: 0, tot_nschan: 0, tot_nwchan: 0, ncorr: 0, nwcorr: 0, flushed: false };
        assert(encoder_wf(e@)) by {
            assert forall|i: int| 0 <= i < e@.vars.len() implies (#[trigger] e@.vars[i]).number == i by {
                assert(e@.vars[i].number == tv[i].number);
            }
        }
        (e, text)
    }

    /// The number of the variable of this name: the last one, if the name
    /// occurs more than once.
    fn find(&self, name: &String) -> (r: Option<usize>)
        ensures
            r == match last_named(self@.vars, name@, self@.vars.len() as int) {
                Some(i) => Some(i as usize),
                None => None::<usize>,
            },
            r matches Some(i) ==> i < self@.vars.len(),
            last_named(self@.vars, name@, self@.vars.len() as int) matches Some(i) ==> 0 <= i < self@.vars.len(),
    {
        proof {
            lemma_last_named_bound(self@.vars, name@, self@.vars.len() as int);
        }
        let mut i = self.vars.len();
        while i > 0
            invariant
                i <= self.vars@.len(),
                last_named(self@.vars, name@, self@.vars.len() as int) == last_named(self@.vars, name@, i as int),
            decreases i,
        {
            assert(self@.vars[i - 1] == self.vars@[i - 1]@);
            if self.vars[i - 1].name == *name {
                return Some(i - 1);
            }
            i -= 1;
        }
        None
    }

    /// Write the bytes of a data entry for variable `k`, preceded by a size
    /// entry when `n_vals` differs from what was last written, and record
    /// the new count; returns the bytes.
    fn emit(&mut self, k: usize, n_vals: isize, n_bytes: usize, data: &[u8]) -> (out: Vec<u8>)
        requires
            encoder_wf(old(self)@),
            k < old(self)@.vars.len(),
            old(self)@.offset + data@.len() + 32 <= u64::MAX,
        ensures
            ({
                let our = old(self)@.vars[k as int];
                let size = if n_vals != our.n_vals { Some(n_bytes as i32) } else { None::<i32> };
                out@ == emit_var(our.number, old(self)@.offset, size, our.ty.spec_alignment() as int, data@)
            }),
            final(self)@.offset == old(self)@.offset + out@.len(),
            final(self)@.vars == old(self)@.vars.update(k as int, VarModel {
                n_vals: n_vals as int,
                ..old(self)@.vars[k as int]
            }),
            final(self)@.tot_nschan == old(self)@.tot_nschan,
            final(self)@.tot_nwchan == old(self)@.tot_nwchan,
            final(self)@.ncorr == old(self)@.ncorr,
            final(self)@.nwcorr == old(self)@.nwcorr,
            final(self)@.flushed == false,
            encoder_wf(final(self)@),
    {
        let ghost vars0 = self@.vars;
        let mut out: Vec<u8> = Vec::new();
        let num = self.vars[k].number;
        let al = self.vars[k].ty.alignment() as u64;
        let o1 = push_pad(&mut out, self.offset, 8);
        let ghost head_pad = out@;
        let o2 = if self.vars[k].n_vals != n_vals {
            self.vars[k].n_vals = n_vals;
            out.push(num);
            out.push(0u8);
            out.push(0u8);
            out.push(0u8);
            let b = write_be_i32(n_bytes as i32);
            push_all(&mut out, &b);
            o1 + 8
        } else {
            o1
        };
        let ghost head = out@;
        assert(head.len() == o2 - old(self)@.offset);
        out.push(num);
        out.push(0u8);
        out.push(1u8);
        out.push(0u8);
        let o3 = push_pad(&mut out, o2 + 4, al);
        push_all(&mut out, data);
        proof {
            let our = vars0[k as int];
            let size = if n_vals != our.n_vals { Some(n_bytes as i32) } else { None::<i32> };
            let h = zeros(pad_amount(old(self)@.offset, 8)) + match size {
                Some(nb) => seq![num, 0u8, 0u8, 0u8] + u32_be_bytes(nb as u32),
                None => Seq::<u8>::empty(),
            };
            assert(head =~= h);
            assert(out@ =~= emit_var(our.number, old(self)@.offset, size, our.ty.spec_alignment() as int, data@));
        }
        self.offset = o3 + data.len() as u64;
        self.flushed = false;
        proof {
            assert(self@.vars =~= vars0.update(k as int, VarModel { n_vals: n_vals as int, ..vars0[k as int] }));
            assert forall|i: int| 0 <= i < self@.vars.len() implies (#[trigger] self@.vars[i]).number == i by {
                assert(self@.vars[i].number == vars0[i].number);
            }
        }
        out
    }

    /// Write the current values of a variable of another stream to the
    /// variable of the same name; returns the bytes to append to the stream.
    pub fn write_var(&mut self, var: &UvVariable) -> (res: Result<Vec<u8>, MiriadFormatError>)
        requires
            encoder_wf(old(self)@),
            var_wf(var@),
            old(self)@.offset + var@.data.len() + 32 <= u64::MAX,
            var@.name == nschan_name() ==> var@.data.len() % 4 == 0,
        ensures
            encoder_wf(final(self)@),
            match last_named(old(self)@.vars, var@.name, old(self)@.vars.len() as int) {
                None => (res matches Err(MiriadFormatError::NoSuchVariable(s)) && s@ == var@.name) && final(self)@ == old(self)@,
                Some(k) => if var@.data.len() == 0 {
                    (res matches Err(MiriadFormatError::ZeroSizeArray(s)) && s@ == var@.name) && final(self)@ == old(self)@
                } else {
                    let our = old(self)@.vars[k];
                    let size = if var@.n_vals != our.n_vals { Some(var@.data.len() as i32) } else { None::<i32> };
                    let out = emit_var(our.number, old(self)@.offset, size, our.ty.spec_alignment() as int, var@.data);
                    &&& res matches Ok(b) && b@ == out
                    &&& final(self)@ == (EncoderModel {
                        vars: old(self)@.vars.update(k, VarModel { n_vals: var@.n_vals, ..our }),
                        offset: old(self)@.offset + out.len(),
                        tot_nschan: if var@.name == nschan_name() { nschan_total(var@.data) } else { old(self)@.tot_nschan },
                        flushed: false,
                        ..old(self)@
                    })
                },
            },
    {
        let k = match self.find(&var.name) {
            Some(k) => k,
            None => {
                return Err(MiriadFormatError::NoSuchVariable(var.name.clone()));
            },
        };
        if var.data.len() == 0 {
            return Err(MiriadFormatError::ZeroSizeArray(var.name.clone()));
        }
        if is_nschan(var.name.as_str()) {
            self.tot_nschan = read_last_i32(var.data.as_slice());
        }
        assert(var@.n_vals >= 0 && var@.data.len() == var@.n_vals * var@.ty.spec_size());
        let sz = var.ty.size();
        let nv = var.n_vals as usize;
        assert(sz * nv == var@.data.len()) by (nonlinear_arith)
            requires
                var@.data.len() == var@.n_vals * var@.ty.spec_size(),
                var@.n_vals >= 0,
                sz == var@.ty.spec_size(),
                nv == var@.n_vals,
        ;
        let n_bytes = sz * nv;
        let out = self.emit(k, var.n_vals, n_bytes, var.data.as_slice());
        Ok(out)
    }

    /// Write values of the variable of this name; the Rust type must map
    /// onto the variable's type. Returns the bytes to append to the stream.
    pub fn write<T: MiriadMappedType>(&mut self, name: &str, values: &[T]) -> (res: Result<Vec<u8>, MiriadFormatError>)
        requires
            encoder_wf(old(self)@),
            values@.len() > 0 ==> T::encodable(values.deep_view()),
            values@.len() > 0 ==> T::spec_encode(values.deep_view()).len() <= isize::MAX,
            values@.len() > 0 ==> old(self)@.offset + T::spec_encode(values.deep_view()).len() + 32 <= u64::MAX,
            values@.len() > 0 && name@ == nschan_name() ==> T::spec_encode(values.deep_view()).len() % 4 == 0,
        ensures
            encoder_wf(final(self)@),
            match last_named(old(self)@.vars, name@, old(self)@.vars.len() as int) {
                None => (res matches Err(MiriadFormatError::NoSuchVariable(s)) && s@ == name@) && final(self)@ == old(self)@,
                Some(k) => {
                    let our = old(self)@.vars[k];
                    let enc = T::spec_encode(values.deep_view());
                    let cnt = T::spec_count(values.deep_view());
                    if values@.len() == 0 {
                        (res matches Err(MiriadFormatError::ZeroSizeArray(s)) && s@ == name@) && final(self)@ == old(self)@
                    } else if T::spec_type() != our.ty {
                        res == Err::<Vec<u8>, MiriadFormatError>(MiriadFormatError::TypeMismatch(our.ty, T::spec_type()))
                            && final(self)@ == old(self)@
                    } else {
                        let size = if cnt != our.n_vals { Some(enc.len() as i32) } else { None::<i32> };
                        let out = emit_var(our.number, old(self)@.offset, size, our.ty.spec_alignment() as int, enc);
                        &&& res matches Ok(b) && b@ == out
                        &&& final(self)@ == (EncoderModel {
                            vars: old(self)@.vars.update(k, VarModel { n_vals: cnt, data: enc, ..our }),
                            offset: old(self)@.offset + out.len(),
                            tot_nschan: if name@ == nschan_name() { nschan_total(enc) } else { old(self)@.tot_nschan },
                            flushed: false,
                            ..old(self)@
                        })
                    }
                },
            },
    {
        let name_s = name.to_owned();
        let k = match self.find(&name_s) {
            Some(k) => k,
            None => {
                return Err(MiriadFormatError::NoSuchVariable(name_s));
            },
        };
        if values.len() == 0 {
            return Err(MiriadFormatError::ZeroSizeArray(name_s));
        }
        let t = T::miriad_type();
        if t != self.vars[k].ty {
            return Err(MiriadFormatError::TypeMismatch(self.vars[k].ty, t));
        }
        proof {
            T::lemma_encoded_len(values.deep_view());
        }
        let count = T::get_miriad_count(values);
        assert(count <= T::spec_encode(values.deep_view()).len()) by (nonlinear_arith)
            requires
                T::spec_encode(values.deep_view()).len() == count * T::spec_type().spec_size(),
                T::spec_type().spec_size() >= 1,
        ;
        let mut data: Vec<u8> = Vec::new();
        T::encode_values_into_vec(values, &mut data);
        let n_vals = count as isize;
        let n_bytes = data.len();
        let ghost before = self@;
        let out = self.emit(k, n_vals, n_bytes, data.as_slice());
        if is_nschan(name) {
            self.tot_nschan = if data.len() >= 4 { read_last_i32(data.as_slice()) } else { 0 };
        }
        let ghost mid = self@.vars;
        let ghost enc = data@;
        assert(self.vars@[k as int]@ == mid[k as int]);
        self.vars[k].data = data;
        proof {
            assert(self.vars@[k as int]@ == VarModel { data: enc, ..mid[k as int] });
            assert forall|i: int| 0 <= i < self.vars@.len() && i != k implies #[trigger] self.vars@[i]@ == mid[i] by {}
            assert(self@.vars =~= before.vars.update(k as int, VarModel {
                n_vals: count as int,
                data: T::spec_encode(values.deep_view()),
                ..before.vars[k as int]
            }));
            assert forall|i: int| 0 <= i < self@.vars.len() implies (#[trigger] self@.vars[i]).number == i by {
                assert(self@.vars[i].number == before.vars[i].number);
            }
        }
        Ok(out)
    }

    /// Write a single value of the variable of this name.
    pub fn write_scalar<T: MiriadMappedType>(&mut self, name: &str, value: T) -> (res: Result<Vec<u8>, MiriadFormatError>)
        requires
            encoder_wf(old(self)@),
            T::encodable(seq![value.deep_view()]),
            T::spec_encode(seq![value.deep_view()]).len() <= isize::MAX,
            old(self)@.offset + T::spec_encode(seq![value.deep_view()]).len() + 32 <= u64::MAX,
            name@ == nschan_name() ==> T::spec_encode(seq![value.deep_view()]).len() % 4 == 0,
        ensures
            encoder_wf(final(self)@),
            match last_named(old(self)@.vars, name@, old(self)@.vars.len() as int) {
                None => (res matches Err(MiriadFormatError::NoSuchVariable(s)) && s@ == name@) && final(self)@ == old(self)@,
                Some(k) => {
                    let our = old(self)@.vars[k];
                    let enc = T::spec_encode(seq![value.deep_view()]);
                    let cnt = T::spec_count(seq![value.deep_view()]);
                    if T::spec_type() != our.ty {
                        res == Err::<Vec<u8>, MiriadFormatError>(MiriadFormatError::TypeMismatch(our.ty, T::spec_type()))
                            && final(self)@ == old(self)@
                    } else {
                        let size = if cnt != our.n_vals { Some(enc.len() as i32) } else { None::<i32> };
                        let out = emit_var(our.number, old(self)@.offset, size, our.ty.spec_alignment() as int, enc);
                        &&& res matches Ok(b) && b@ == out
                        &&& final(self)@ == (EncoderModel {
                            vars: old(self)@.vars.update(k, VarModel { n_vals: cnt, data: enc, ..our }),
                            offset: old(self)@.offset + out.len(),
                            tot_nschan: if name@ == nschan_name() { nschan_total(enc) } else { old(self)@.tot_nschan },
                            flushed: false,
                            ..old(self)@
                        })
                    }
                },
            },
    {
        let values = [value];
        assert(values.deep_view() =~= seq![values@[0].deep_view()]);
        self.write(name, &values)
    }

    /// End the current record: count its channels (in 64-bit arithmetic
    /// that wraps) and write the end-of-record entry. Returns the bytes to
    /// append to the stream.
    pub fn finish_record(&mut self) -> (out: Vec<u8>)
        requires
            encoder_wf(old(self)@),
            old(self)@.offset + 16 <= u64::MAX,
        ensures
            out@ == emit_eor(old(self)@.offset),
            final(self)@ == (EncoderModel {
                ncorr: (old(self)@.ncorr as i64).wrapping_add(old(self)@.tot_nschan as i64) as int,
                nwcorr: (old(self)@.nwcorr as i64).wrapping_add(old(self)@.tot_nwchan as i64) as int,
                offset: old(self)@.offset + out@.len(),
                flushed: false,
                ..old(self)@
            }),
            encoder_wf(final(self)@),
    {
        self.ncorr = self.ncorr.wrapping_add(self.tot_nschan);
        self.nwcorr = self.nwcorr.wrapping_add(self.tot_nwchan);
        let mut out: Vec<u8> = Vec::new();
        let o = push_pad(&mut out, self.offset, 8);
        out.push(0u8);
        out.push(0u8);
        out.push(2u8);
        out.push(0u8);
        assert(out@ =~= emit_eor(old(self)@.offset));
        self.offset = o + 4;
        self.flushed = false;
        out
    }

    /// The header items that record what has been written: `ncorr`,
    /// `nwcorr` and `vislen` (the bytes written plus 4), each a 64-bit
    /// integer; and the number of bytes written.
    pub fn flush(&mut self) -> (res: (Vec<HeaderItem>, u64))
        requires
            old(self)@.offset + 4 <= i64::MAX,
        ensures
            final(self)@ == (EncoderModel { flushed: true, ..old(self)@ }),
            res.1 == old(self)@.offset,
            res.0@.len() == 3,
            res.0@[0]@.name == "ncorr"@ && res.0@[0]@.ty == Type::Int64
                && res.0@[0]@.data == <i64 as MiriadMappedType>::spec_encode(seq![old(self)@.ncorr as i64]),
            res.0@[1]@.name == "nwcorr"@ && res.0@[1]@.ty == Type::Int64
                && res.0@[1]@.data == <i64 as MiriadMappedType>::spec_encode(seq![old(self)@.nwcorr as i64]),
            res.0@[2]@.name == "vislen"@ && res.0@[2]@.ty == Type::Int64
                && res.0@[2]@.data == <i64 as MiriadMappedType>::spec_encode(seq![(old(self)@.offset + 4) as i64]),
    {
        let mut items: Vec<HeaderItem> = Vec::new();
        items.push(int64_item("ncorr".to_owned(), self.ncorr));
        items.push(int64_item("nwcorr".to_owned(), self.nwcorr));
        items.push(int64_item("vislen".to_owned(), (self.offset + 4) as i64));
        self.flushed = true;
        (items, self.offset)
    }
}

/// A small item holding one 64-bit integer.
fn int64_item(name: String, value: i64) -> (h: HeaderItem)
    ensures
        h@.name == name@,
        h@.ty == Type::Int64,
        h@.data == <i64 as MiriadMappedType>::spec_encode(seq![value]),
{
    let vals = [value];
    let mut data: Vec<u8> = Vec::new();
    assert(vals.deep_view() =~= seq![value]);
    i64::encode_values_into_vec(&vals, &mut data);
    HeaderItem { name, ty: Type::Int64, data }
}

} // verus!
