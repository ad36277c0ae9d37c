//! Parse the headers of a FITS file to learn its structure: the kind,
//! name, data format and shape of each HDU.
//!
//! The parser does not read by itself. It says what it needs next (the next
//! block, or the block at some offset of the file) and is handed that block.

use super::decoder::{data_size, product, spec_data_size, BLOCK_LEN};
use super::records::{
    accumulate_naxis_value, fixed_string_bytes, has_prefix, is_end_record, parse_fixed_int,
    record_has_prefix, record_is_end, spec_fixed_int, spec_fixed_string, spec_naxis_record,
    Bitpix, FitsFormatError, BITPIX_MARKER, EXTNAME_MARKER, FITS_MARKER, GCOUNT_MARKER,
    GROUPS_MARKER, NAXIS_MARKER, PCOUNT_MARKER, RECORD_LEN, XTENSION_MARKER,
};
use crate::text::{all_ascii, ascii_chars, ascii_to_string};
use vstd::prelude::*;

verus! {

/// The kinds of HDUs.
#[derive(Clone, Debug, PartialEq, Eq)]
pub enum HduKind {
    /// The primary HDU, holding an N-dimensional array.
    PrimaryArray,
    /// The primary HDU, holding a "random groups" binary table.
    PrimaryRandomGroups,
    /// The primary HDU, whose array has zero total size.
    PrimaryNoData,
    /// An N-dimensional data array.
    ImageExtension,
    /// A textual data table.
    AsciiTableExtension,
    /// A binary data table.
    BinaryTableExtension,
    /// An extension of this other type.
    OtherExtension(String),
}

pub enum HduKindModel {
    PrimaryArray,
    PrimaryRandomGroups,
    PrimaryNoData,
    ImageExtension,
    AsciiTableExtension,
    BinaryTableExtension,
    OtherExtension(Seq<char>),
}

impl View for HduKind {
    type V = HduKindModel;

    open spec fn view(&self) -> HduKindModel {
        match self {
            HduKind::PrimaryArray => HduKindModel::PrimaryArray,
            HduKind::PrimaryRandomGroups => HduKindModel::PrimaryRandomGroups,
            HduKind::PrimaryNoData => HduKindModel::PrimaryNoData,
            HduKind::ImageExtension => HduKindModel::ImageExtension,
            HduKind::AsciiTableExtension => HduKindModel::AsciiTableExtension,
            HduKind::BinaryTableExtension => HduKindModel::BinaryTableExtension,
            HduKind::OtherExtension(s) => HduKindModel::OtherExtension(s@),
        }
    }
}

/// Information about an HDU of a parsed FITS file.
#[derive(Clone, Debug)]
pub struct ParsedHdu {
    kind: HduKind,
    name: String,
    header_offset: u64,
    n_header_records: u64,
    bitpix: Bitpix,
    pcount: isize,
    gcount: usize,
    naxis: Vec<usize>,
}

pub struct HduModel {
    pub kind: HduKindModel,
    pub name: Seq<char>,
    pub header_offset: int,
    pub n_header_records: int,
    pub bitpix: Bitpix,
    pub pcount: int,
    pub gcount: int,
    pub naxis: Seq<usize>,
}

impl View for ParsedHdu {
    type V = HduModel;

    closed spec fn view(&self) -> HduModel {
        HduModel {
            kind: self.kind@,
            name: self.name@,
            header_offset: self.header_offset as int,
            n_header_records: self.n_header_records as int,
            bitpix: self.bitpix,
            pcount: self.pcount as int,
            gcount: self.gcount as int,
            naxis: self.naxis@,
        }
    }
}

impl ParsedHdu {
    /// The name of this HDU: its `EXTNAME` for an extension, empty for the
    /// primary HDU.
    pub fn extname(&self) -> (s: &str)
        ensures
            s@ == self@.name,
    {
        self.name.as_str()
    }

    /// The kind of this HDU.
    pub fn kind(&self) -> (k: HduKind)
        ensures
            k@ == self@.kind,
    {
        match &self.kind {
            HduKind::PrimaryArray => HduKind::PrimaryArray,
            HduKind::PrimaryRandomGroups => HduKind::PrimaryRandomGroups,
            HduKind::PrimaryNoData => HduKind::PrimaryNoData,
            HduKind::ImageExtension => HduKind::ImageExtension,
            HduKind::AsciiTableExtension => HduKind::AsciiTableExtension,
            HduKind::BinaryTableExtension => HduKind::BinaryTableExtension,
            HduKind::OtherExtension(s) => HduKind::OtherExtension(s.clone()),
        }
    }

    /// The `BITPIX` of this HDU: the format of its data.
    pub fn bitpix(&self) -> (b: Bitpix)
        ensures
            b == self@.bitpix,
    {
        self.bitpix
    }

    /// The shape of this HDU's data: `(gcount, pcount, naxis)`.
    pub fn shape(&self) -> (s: (usize, isize, &[usize]))
        ensures
            s.0 == self@.gcount,
            s.1 == self@.pcount,
            s.2@ == self@.naxis,
    {
        (self.gcount, self.pcount, self.naxis.as_slice())
    }
}

/// What the parser needs next.
#[derive(Clone, Copy, Debug, PartialEq, Eq, Structural)]
pub enum ParserAction {
    /// The block that follows the last one handed over.
    ReadBlock,
    /// The block at this byte offset of the file.
    SeekAndReadBlock(u64),
    /// Nothing: the structure of the file is known.
    Done,
}

/// The state of the scan of an HDU's headers.
pub struct ScanModel {
    pub kind: HduKindModel,
    pub primary: bool,
    pub bitpix: Bitpix,
    pub naxis: Seq<usize>,
    pub seen_groups: bool,
    pub pcount: int,
    pub gcount: int,
    pub n_header_records: int,
    pub extname: Option<Seq<char>>,
}

/// The kind of extension that an `XTENSION` value names.
pub open spec fn extension_kind(b: Seq<u8>) -> HduKindModel {
    if b == seq![73u8, 77u8, 65u8, 71u8, 69u8] {
        HduKindModel::ImageExtension
    } else if b == seq![84u8, 65u8, 66u8, 76u8, 69u8] {
        HduKindModel::AsciiTableExtension
    } else if b == seq![66u8, 73u8, 78u8, 84u8, 65u8, 66u8, 76u8, 69u8] {
        HduKindModel::BinaryTableExtension
    } else {
        HduKindModel::OtherExtension(ascii_chars(b))
    }
}

/// The first three records of an HDU, in its first block: `SIMPLE` (or
/// `XTENSION`), `BITPIX`, `NAXIS`. `None` when a block that should begin an
/// extension does not: the rest of the file is special records.
pub open spec fn begin_hdu(primary: bool, block: Seq<u8>) -> Result<Option<ScanModel>, FitsFormatError> {
    let first = block.subrange(0, 80);
    let kind: Result<Option<HduKindModel>, FitsFormatError> = if primary {
        if !has_prefix(first, FITS_MARKER@) {
            Err(FitsFormatError::NoSimpleMarker)
        } else {
            Ok(Some(HduKindModel::PrimaryArray))
        }
    } else if !has_prefix(first, XTENSION_MARKER@) {
        Ok(None)
    } else {
        match spec_fixed_string(first) {
            Err(e) => Err(e),
            Ok(b) => Ok(Some(extension_kind(b))),
        }
    };
    match kind {
        Err(e) => Err(e),
        Ok(None) => Ok(None),
        Ok(Some(kind)) => {
            let second = block.subrange(80, 160);
            let third = block.subrange(160, 240);
            if !has_prefix(second, BITPIX_MARKER@) {
                Err(FitsFormatError::SecondNotBitpix)
            } else {
                match spec_fixed_int(second) {
                    Err(e) => Err(e),
                    Ok(v) => match Bitpix::spec_from_value(v) {
                        None => Err(FitsFormatError::UnsupportedBitpix(v as isize)),
                        Some(bitpix) => if !has_prefix(third, NAXIS_MARKER@) {
                            Err(FitsFormatError::ThirdNotNaxis)
                        } else {
                            match spec_fixed_int(third) {
                                Err(e) => Err(e),
                                Ok(n) => if n < 0 || n > 999 {
                                    Err(FitsFormatError::UnsupportedNaxis(n as isize))
                                } else {
                                    Ok(Some(ScanModel {
                                        kind,
                                        primary,
                                        bitpix,
                                        naxis: Seq::empty(),
                                        seen_groups: !primary,
                                        pcount: 0,
                                        gcount: 1,
                                        n_header_records: 3,
                                        extname: None,
                                    }))
                                },
                            }
                        },
                    },
                }
            }
        },
    }
}

pub open spec fn bump(n: int) -> int {
    if n < u64::MAX {
        n + 1
    } else {
        n
    }
}

/// One header record after the first three: `None` when it is `END`.
pub open spec fn scan_record(s: ScanModel, r: Seq<u8>) -> Result<Option<ScanModel>, FitsFormatError> {
    let n = bump(s.n_header_records);
    match spec_naxis_record(r, s.naxis.len() as int) {
        Err(e) => Err(e),
        Ok(Some(v)) => Ok(Some(ScanModel { naxis: s.naxis.push(v as usize), n_header_records: n, ..s })),
        Ok(None) => if has_prefix(r, GROUPS_MARKER@) {
            Ok(Some(ScanModel { seen_groups: true, n_header_records: n, ..s }))
        } else if s.seen_groups && has_prefix(r, PCOUNT_MARKER@) {
            match spec_fixed_int(r) {
                Err(e) => Err(e),
                Ok(v) => Ok(Some(ScanModel { pcount: v, n_header_records: n, ..s })),
            }
        } else if s.seen_groups && has_prefix(r, GCOUNT_MARKER@) {
            match spec_fixed_int(r) {
                Err(e) => Err(e),
                Ok(v) => if v < 0 {
                    Err(FitsFormatError::NegativeGcount)
                } else {
                    Ok(Some(ScanModel { gcount: v, n_header_records: n, ..s }))
                },
            }
        } else if has_prefix(r, EXTNAME_MARKER@) {
            match spec_fixed_string(r) {
                Err(e) => Err(e),
                Ok(b) => Ok(Some(ScanModel { extname: Some(ascii_chars(b)), n_header_records: n, ..s })),
            }
        } else if is_end_record(r) {
            Ok(None)
        } else {
            Ok(Some(ScanModel { n_header_records: n, ..s }))
        },
    }
}

/// The records of `block` from offset `bo` on: the scan state after them,
/// and whether the `END` record was among them.
pub open spec fn scan_block(s: ScanModel, block: Seq<u8>, bo: int) -> Result<(ScanModel, bool), FitsFormatError>
    decreases BLOCK_LEN - bo,
{
    if bo + RECORD_LEN > BLOCK_LEN {
        Ok((s, false))
    } else {
        match scan_record(s, block.subrange(bo, bo + RECORD_LEN)) {
            Err(e) => Err(e),
            Ok(None) => Ok((s, true)),
            Ok(Some(s2)) => scan_block(s2, block, bo + RECORD_LEN),
        }
    }
}

/// The HDU that a finished header scan describes, with the size of its data.
pub open spec fn finish_hdu(s: ScanModel, header_offset: int) -> Result<(HduModel, int), FitsFormatError> {
    let name: Result<Seq<char>, FitsFormatError> = if s.primary {
        Ok(Seq::empty())
    } else {
        match s.extname {
            Some(n) => Ok(n),
            None => Err(FitsFormatError::MissingExtname),
        }
    };
    match name {
        Err(e) => Err(e),
        Ok(name) => if s.seen_groups && s.primary && s.naxis.len() == 0 {
            Err(FitsFormatError::GroupsWithoutAxes)
        } else {
            match spec_data_size(if s.primary { 0 } else { 1 }, s.seen_groups, s.naxis, s.pcount, s.gcount, s.bitpix) {
                Err(e) => Err(e),
                Ok(d) => Ok((
                    HduModel {
                        kind: if !s.primary {
                            s.kind
                        } else if d == 0 {
                            HduKindModel::PrimaryNoData
                        } else if s.seen_groups {
                            HduKindModel::PrimaryRandomGroups
                        } else {
                            HduKindModel::PrimaryArray
                        },
                        name,
                        header_offset,
                        n_header_records: s.n_header_records,
                        bitpix: s.bitpix,
                        pcount: s.pcount,
                        gcount: s.gcount,
                        naxis: if s.seen_groups && s.primary { s.naxis.drop_first() } else { s.naxis },
                    },
                    d,
                )),
            }
        },
    }
}

/// The parser's state as plain values.
pub struct ParserModel {
    pub hdus: Seq<HduModel>,
    pub special_record_size: int,
    pub file_size: int,
    pub cur_offset: int,
    pub hdu_header_offset: int,
    pub scan: Option<ScanModel>,
    pub done: bool,
}

/// The smallest multiple of 2880 that is at least `d`.
pub open spec fn padded(d: int) -> int {
    ((d + 2879) / 2880) * 2880
}

impl ParserModel {
    /// Continue the scan of the current HDU with `block`, from offset `bo`.
    pub open spec fn continue_scan(self, s: ScanModel, block: Seq<u8>, bo: int) -> Result<(ParserModel, ParserAction), FitsFormatError> {
        match scan_block(s, block, bo) {
            Err(e) => Err(e),
            Ok((s2, false)) => Ok((ParserModel { scan: Some(s2), ..self }, ParserAction::ReadBlock)),
            Ok((s2, true)) => match finish_hdu(s2, self.hdu_header_offset) {
                Err(e) => Err(e),
                Ok((h, d)) => {
                    let next = self.cur_offset + padded(d);
                    if next > self.file_size {
                        Err(FitsFormatError::Truncated)
                    } else {
                        let p = ParserModel { hdus: self.hdus.push(h), scan: None, hdu_header_offset: next, cur_offset: next, ..self };
                        if next == self.file_size {
                            Ok((ParserModel { done: true, ..p }, ParserAction::Done))
                        } else {
                            Ok((p, ParserAction::SeekAndReadBlock(next as u64)))
                        }
                    }
                },
            },
        }
    }

    /// Hand the parser the block it asked for.
    pub open spec fn feed(self, block: Seq<u8>) -> Result<(ParserModel, ParserAction), FitsFormatError> {
        if self.cur_offset + BLOCK_LEN > u64::MAX {
            Err(FitsFormatError::DataSizeOverflow)
        } else {
            let p = ParserModel { cur_offset: self.cur_offset + BLOCK_LEN, ..self };
            match self.scan {
                Some(s) => p.continue_scan(s, block, 0),
                None => match begin_hdu(self.hdus.len() == 0, block) {
                    Err(e) => Err(e),
                    Ok(None) => Ok((
                        ParserModel { special_record_size: self.file_size - self.hdu_header_offset, done: true, ..p },
                        ParserAction::Done,
                    )),
                    Ok(Some(s)) => p.continue_scan(s, block, 240),
                },
            }
        }
    }
}

/// Whether a kind is one of those of the primary HDU.
pub open spec fn is_primary_kind(k: HduKindModel) -> bool {
    ||| k is PrimaryArray
    ||| k is PrimaryRandomGroups
    ||| k is PrimaryNoData
}

/// The bytes that an HDU's headers take: its records and the `END` record,
/// in whole blocks.
pub open spec fn header_bytes(h: HduModel) -> int {
    ((h.n_header_records + 36) / 36) * 2880
}

/// The number of data bytes that an HDU's header values give.
pub open spec fn hdu_data_size(h: HduModel) -> int {
    if h.naxis.len() == 0 && !(h.kind is PrimaryRandomGroups) {
        0
    } else {
        h.bitpix.spec_n_bytes() * h.gcount * (h.pcount + product(h.naxis))
    }
}

/// The offset at which the HDU after `h` begins: after its headers and its
/// data, padded to a whole block.
pub open spec fn hdu_end(h: HduModel) -> int {
    h.header_offset + header_bytes(h) + padded(hdu_data_size(h))
}

/// A list of HDUs as a FITS file lays them out: the first, at offset 0, is
/// the primary HDU, with an empty name, and it is the only one of a primary
/// kind; each other HDU begins where the one before it ends.
pub open spec fn hdu_layout(hdus: Seq<HduModel>) -> bool {
    &&& hdus.len() > 0 ==> hdus[0].header_offset == 0 && hdus[0].name.len() == 0
    &&& forall|i: int| 0 <= i < hdus.len() ==> (is_primary_kind(#[trigger] hdus[i].kind) <==> i == 0)
    &&& forall|i: int| 0 <= i < hdus.len() - 1 ==> #[trigger] hdus[i + 1].header_offset == hdu_end(hdus[i])
}

/// The parser's bookkeeping of offsets: the HDUs found lie as `hdu_layout`
/// says, the next one begins where the last ends, and the running offset
/// counts the blocks of headers read since.
pub open spec fn parse_layout(m: ParserModel) -> bool {
    &&& hdu_layout(m.hdus)
    &&& 0 <= m.hdu_header_offset
    &&& m.cur_offset <= u64::MAX
    &&& m.file_size <= u64::MAX
    &&& m.hdus.len() == 0 ==> m.hdu_header_offset == 0
    &&& m.hdus.len() > 0 ==> m.hdu_header_offset == hdu_end(m.hdus.last())
    &&& m.done ==> m.hdus.len() > 0
    &&& m.scan is None && !m.done ==> m.cur_offset == m.hdu_header_offset
    &&& m.scan matches Some(s) ==> {
        &&& s.primary == (m.hdus.len() == 0)
        &&& s.n_header_records >= 0
        &&& s.gcount >= 0
        &&& (is_primary_kind(s.kind) <==> s.primary)
        &&& s.n_header_records % 36 == 0
        &&& m.cur_offset == m.hdu_header_offset + (s.n_header_records / 36) * 2880
    }
}

proof fn lemma_scan_block_count(s: ScanModel, block: Seq<u8>, bo: int)
    requires
        block.len() == BLOCK_LEN,
        0 <= bo <= BLOCK_LEN,
        bo % (RECORD_LEN as int) == 0,
        s.n_header_records >= 0,
        s.gcount >= 0,
        s.n_header_records + (BLOCK_LEN - bo) / (RECORD_LEN as int) < u64::MAX,
    ensures
        scan_block(s, block, bo) matches Ok((s2, ended)) ==> {
            &&& s2.primary == s.primary
            &&& s2.gcount >= 0
            &&& s2.kind == s.kind
            &&& ended ==> s.n_header_records <= s2.n_header_records < s.n_header_records + (BLOCK_LEN - bo) / (RECORD_LEN as int)
            &&& !ended ==> s2.n_header_records == s.n_header_records + (BLOCK_LEN - bo) / (RECORD_LEN as int)
        },
    decreases BLOCK_LEN - bo,
{
    if bo + RECORD_LEN <= BLOCK_LEN {
        match scan_record(s, block.subrange(bo, bo + RECORD_LEN)) {
            Ok(Some(s2)) => {
                assert((BLOCK_LEN - bo) / (RECORD_LEN as int) == (BLOCK_LEN - (bo + RECORD_LEN)) / (RECORD_LEN as int) + 1);
                lemma_scan_block_count(s2, block, bo + RECORD_LEN);
            },
            _ => {},
        }
    }
}

proof fn lemma_finish_layout(s: ScanModel, header_offset: int)
    requires
        is_primary_kind(s.kind) <==> s.primary,
        s.gcount >= 0,
    ensures
        finish_hdu(s, header_offset) matches Ok((h, d)) ==> {
            &&& d == hdu_data_size(h)
            &&& d >= 0
            &&& h.header_offset == header_offset
            &&& h.n_header_records == s.n_header_records
            &&& (is_primary_kind(h.kind) <==> s.primary)
            &&& s.primary ==> h.name.len() == 0
        },
{
    match finish_hdu(s, header_offset) {
        Ok((h, d)) => {
            if s.naxis.len() > 0 {
                let axes = if s.primary && s.seen_groups { s.naxis.drop_first() } else { s.naxis };
                let nb = s.bitpix.spec_n_bytes() as int;
                assert(nb * s.gcount * (s.pcount + product(axes)) >= 0) by (nonlinear_arith)
                    requires
                        nb >= 0,
                        s.gcount >= 0,
                        s.pcount + product(axes) >= 0,
                ;
            }
        },
        Err(_) => {},
    }
}

/// Feeding the parser keeps its bookkeeping of offsets: whatever it has
/// found, the HDUs lie one after another from offset 0, each beginning
/// where the one before ends (headers and padded data), only the first is
/// of a primary kind, and a parse that is done has found at least one HDU.
/// Each feed also moves the running offset on by at least a block, and the
/// block that the parser asks for next is the one at that offset.
pub proof fn law_feed_keeps_layout(m: ParserModel, block: Seq<u8>)
    requires
        parse_layout(m),
        !m.done,
        block.len() == BLOCK_LEN,
    ensures
        m.feed(block) matches Ok((m2, _)) ==> parse_layout(m2),
        m.feed(block) matches Ok((m2, a)) ==> {
            &&& m2.cur_offset >= m.cur_offset + BLOCK_LEN
            &&& a is ReadBlock ==> !m2.done && m2.cur_offset == m.cur_offset + BLOCK_LEN
            &&& (a matches ParserAction::SeekAndReadBlock(o) ==> !m2.done && o == m2.cur_offset)
            &&& a is Done ==> m2.done
        },
{
    if m.cur_offset + BLOCK_LEN > u64::MAX {
        return;
    }
    let p = ParserModel { cur_offset: m.cur_offset + BLOCK_LEN, ..m };
    let (s, bo) = match m.scan {
        Some(s) => (s, 0int),
        None => match begin_hdu(m.hdus.len() == 0, block) {
            Ok(Some(s)) => (s, 240int),
            _ => { return; },
        },
    };
    assert(s.primary == (m.hdus.len() == 0));
    assert(is_primary_kind(s.kind) <==> s.primary) by {
        if m.scan is None {
            assert(begin_hdu(m.hdus.len() == 0, block) matches Ok(Some(x)) && x == s);
        }
    }
    lemma_scan_block_count(s, block, bo);
    match scan_block(s, block, bo) {
        Ok((s2, false)) => {
            assert(p.continue_scan(s, block, bo) matches Ok((q, _)) && q == ParserModel { scan: Some(s2), ..p });
        },
        Ok((s2, true)) => {
            lemma_finish_layout(s2, m.hdu_header_offset);
            match finish_hdu(s2, m.hdu_header_offset) {
                Ok((h, d)) => {
                    let n = s2.n_header_records;
                    if m.scan is None {
                        assert((n + 36) / 36 == 1);
                        assert(p.cur_offset == m.hdu_header_offset + 2880);
                    } else {
                        let k = s.n_header_records / 36;
                        assert(s.n_header_records == 36 * k);
                        assert((n + 36) / 36 == k + 1);
                    }
                    assert(header_bytes(h) + m.hdu_header_offset == p.cur_offset);
                    let next = p.cur_offset + padded(d);
                    assert(padded(d) >= 0);
                    let hs = m.hdus.push(h);
                    assert(hs.last() == h);
                    assert forall|i: int| 0 <= i < hs.len() implies (is_primary_kind(#[trigger] hs[i].kind) <==> i == 0) by {
                        if i < m.hdus.len() {
                            assert(hs[i] == m.hdus[i]);
                        }
                    }
                    assert forall|i: int| 0 <= i < hs.len() - 1 implies #[trigger] hs[i + 1].header_offset == hdu_end(hs[i]) by {
                        assert(hs[i] == m.hdus[i]);
                        if i + 1 < m.hdus.len() {
                            assert(hs[i + 1] == m.hdus[i + 1]);
                        } else {
                            assert(m.hdus.last() == m.hdus[i]);
                        }
                    }
                    assert(hdu_layout(hs));
                },
                Err(_) => {},
            }
        },
        Err(_) => {},
    }
}

/// The bytes left from `offset` to `len`, none when past it.
pub open spec fn bytes_left(len: int, offset: int) -> nat {
    if offset >= len {
        0
    } else {
        (len - offset) as nat
    }
}

/// The parser's state when it begins on a file of `file_size` bytes.
pub open spec fn started(file_size: int) -> ParserModel {
    ParserModel {
        hdus: Seq::empty(),
        special_record_size: 0,
        file_size,
        cur_offset: 0,
        hdu_header_offset: 0,
        scan: None,
        done: false,
    }
}

/// Parsing the bytes `b` on from the state `m`: the parser is handed each
/// block that it asks for, the one at its running offset, until it is
/// done; a block past the end of the bytes is missing, and the file
/// truncated.
pub open spec fn run_parser(m: ParserModel, b: Seq<u8>) -> Result<ParserModel, FitsFormatError>
    decreases bytes_left(b.len() as int, m.cur_offset) when parse_layout(m)
{
    if m.done {
        Ok(m)
    } else if m.cur_offset < 0 || m.cur_offset + BLOCK_LEN > b.len() {
        Err(FitsFormatError::Truncated)
    } else {
        let block = b.subrange(m.cur_offset, m.cur_offset + BLOCK_LEN);
        match m.feed(block) {
            Err(e) => Err(e),
            Ok((m2, _)) => {
                proof {
                    law_feed_keeps_layout(m, block);
                    assert(m2.cur_offset >= m.cur_offset + BLOCK_LEN);
                }
                run_parser(m2, b)
            },
        }
    }
}

/// The structure of a FITS file held in `b`: its size must be a whole
/// number of blocks, and the parser is run over it from the start.
pub open spec fn spec_parse_bytes(b: Seq<u8>) -> Result<ParserModel, FitsFormatError> {
    if b.len() % 2880 != 0 {
        Err(FitsFormatError::NotMultipleOfBlock(b.len() as u64))
    } else {
        run_parser(started(b.len() as int), b)
    }
}

proof fn lemma_run_parser_done(m: ParserModel, b: Seq<u8>)
    requires
        parse_layout(m),
    ensures
        run_parser(m, b) matches Ok(m2) ==> m2.done && parse_layout(m2),
    decreases bytes_left(b.len() as int, m.cur_offset),
{
    if !m.done && 0 <= m.cur_offset && m.cur_offset + BLOCK_LEN <= b.len() {
        let block = b.subrange(m.cur_offset, m.cur_offset + BLOCK_LEN);
        law_feed_keeps_layout(m, block);
        match m.feed(block) {
            Ok((m2, _)) => {
                assert(m2.cur_offset >= m.cur_offset + BLOCK_LEN);
                lemma_run_parser_done(m2, b);
            },
            Err(_) => {},
        }
    }
}

/// A whole parse: a file that the parser parses to the end has at least
/// one HDU; the first, at offset 0, is the primary HDU, with an empty name,
/// and the only one of a primary kind; and each other HDU begins where the
/// one before it ends.
pub proof fn law_parse_layout(b: Seq<u8>)
    requires
        b.len() <= u64::MAX,
    ensures
        spec_parse_bytes(b) matches Ok(m) ==> {
            &&& m.done
            &&& parse_layout(m)
            &&& m.hdus.len() >= 1
            &&& hdu_layout(m.hdus)
        },
{
    if b.len() % 2880 == 0 {
        let m0 = started(b.len() as int);
        assert(hdu_layout(m0.hdus));
        lemma_run_parser_done(m0, b);
    }
}

/// Where HDU names come from: a header record changes the name recorded
/// for its HDU only when it is an `EXTNAME` record, and then to that
/// record's string value; an HDU's headers once scanned, an extension
/// takes the name last recorded (and is refused without one), while the
/// primary HDU's name is empty.
pub proof fn law_hdu_name(s: ScanModel, r: Seq<u8>, header_offset: int)
    ensures
        scan_record(s, r) matches Ok(Some(s2)) ==> (s2.extname == s.extname || (has_prefix(r, EXTNAME_MARKER@)
            && (spec_fixed_string(r) matches Ok(v) && s2.extname == Some(ascii_chars(v))))),
        finish_hdu(s, header_offset) matches Ok((h, _)) ==> (if s.primary {
            h.name.len() == 0
        } else {
            s.extname == Some(h.name)
        }),
        !s.primary && s.extname is None ==> finish_hdu(s, header_offset) == Err::<(HduModel, int), FitsFormatError>(
            FitsFormatError::MissingExtname,
        ),
{
}

struct HduScan {
    kind: HduKind,
    primary: bool,
    bitpix: Bitpix,
    naxis: Vec<usize>,
    seen_groups: bool,
    pcount: isize,
    gcount: usize,
    n_header_records: u64,
    extname: Option<String>,
}

impl View for HduScan {
    type V = ScanModel;

    closed spec fn view(&self) -> ScanModel {
        ScanModel {
            kind: self.kind@,
            primary: self.primary,
            bitpix: self.bitpix,
            naxis: self.naxis@,
            seen_groups: self.seen_groups,
            pcount: self.pcount as int,
            gcount: self.gcount as int,
            n_header_records: self.n_header_records as int,
            extname: match self.extname {
                Some(s) => Some(s@),
                None => None,
            },
        }
    }
}

/// A parser of the structure of a FITS file.
pub struct FitsParser {
    hdus: Vec<ParsedHdu>,
    special_record_size: u64,
    file_size: u64,
    cur_offset: u64,
    hdu_header_offset: u64,
    scan: Option<HduScan>,
    done: bool,
}

impl View for FitsParser {
    type V = ParserModel;

    closed spec fn view(&self) -> ParserModel {
        ParserModel {
            hdus: self.hdus@.map_values(|h: ParsedHdu| h@),
            special_record_size: self.special_record_size as int,
            file_size: self.file_size as int,
            cur_offset: self.cur_offset as int,
            hdu_header_offset: self.hdu_header_offset as int,
            scan: match self.scan {
                Some(s) => Some(s@),
                None => None,
            },
            done: self.done,
        }
    }
}

impl FitsParser {
    pub closed spec fn wf(&self) -> bool {
        &&& self.scan matches Some(s) ==> s.naxis.len() < 1000
        &&& self.hdu_header_offset <= self.file_size
    }

    /// Begin parsing a file of `file_size` bytes: it must be a whole number
    /// of blocks. The first block to hand over is the one at offset 0.
    pub fn start(file_size: u64) -> (res: Result<(FitsParser, ParserAction), FitsFormatError>)
        ensures
            file_size % 2880 != 0 <==> res is Err,
            res matches Err(e) ==> e == FitsFormatError::NotMultipleOfBlock(file_size),
            res matches Ok((p, a)) ==> {
                &&& p.wf()
                &&& parse_layout(p@)
                &&& a == ParserAction::SeekAndReadBlock(0)
                &&& p@ == (ParserModel {
                    hdus: Seq::empty(),
                    special_record_size: 0,
                    file_size: file_size as int,
                    cur_offset: 0,
                    hdu_header_offset: 0,
                    scan: None,
                    done: false,
                })
            },
    {
        if file_size % 2880 != 0 {
            return Err(FitsFormatError::NotMultipleOfBlock(file_size));
        }
        let p = FitsParser {
            hdus: Vec::new(),
            special_record_size: 0,
            file_size,
            cur_offset: 0,
            hdu_header_offset: 0,
            scan: None,
            done: false,
        };
        assert(p@.hdus =~= Seq::<HduModel>::empty());
        Ok((p, ParserAction::SeekAndReadBlock(0)))
    }

    /// Whether the structure of the file is known.
    pub fn is_done(&self) -> (b: bool)
        ensures
            b == self@.done,
    {
        self.done
    }

    /// The HDUs found so far.
    pub fn hdus(&self) -> (h: &[ParsedHdu])
        ensures
            h@.len() == self@.hdus.len(),
            forall|i: int| 0 <= i < h@.len() ==> #[trigger] h@[i]@ == self@.hdus[i],
    {
        self.hdus.as_slice()
    }

    /// Hand the parser the 2880-byte block that it asked for.
    pub fn feed(&mut self, block: &[u8]) -> (res: Result<ParserAction, FitsFormatError>)
        requires
            old(self).wf(),
            !old(self)@.done,
            block.len() == BLOCK_LEN,
        ensures
            match old(self)@.feed(block@) {
                Ok((m, a)) => res == Ok::<ParserAction, FitsFormatError>(a) && final(self)@ == m && final(self).wf(),
                Err(e) => res == Err::<ParserAction, FitsFormatError>(e),
            },
            parse_layout(old(self)@) && res is Ok ==> parse_layout(final(self)@),
    {
        proof {
            if parse_layout(self@) {
                law_feed_keeps_layout(self@, block@);
            }
        }
        if self.cur_offset > u64::MAX - 2880 {
            return Err(FitsFormatError::DataSizeOverflow);
        }
        self.cur_offset = self.cur_offset + 2880;
        let ghost p = self@;
        match self.scan.take() {
            Some(s) => {
                assert(p.scan == Some(s@));
                self.continue_scan(s, block, 0)
            },
            None => {
                let primary = self.hdus.len() == 0;
                match begin_hdu_exec(primary, block)? {
                    None => {
                        self.special_record_size = self.file_size - self.hdu_header_offset;
                        self.done = true;
                        Ok(ParserAction::Done)
                    },
                    Some(s) => self.continue_scan(s, block, 240),
                }
            },
        }
    }

    /// Parse the headers of a FITS file held in memory: the bytes must be a
    /// whole number of blocks; each block that the parser asks for is
    /// handed to it, and a block past the end of the bytes is missing.
    pub fn parse_bytes(bytes: &[u8]) -> (res: Result<FitsParser, FitsFormatError>)
        ensures
            match spec_parse_bytes(bytes@) {
                Ok(m) => res matches Ok(p) && p@ == m,
                Err(e) => res matches Err(x) && x == e,
            },
            res matches Ok(p) ==> p@.done && parse_layout(p@) && p@.hdus.len() >= 1,
    {
        let ghost b = bytes@;
        proof {
            law_parse_layout(b);
        }
        let n = bytes.len() as u64;
        let mut p = match FitsParser::start(n) {
            Ok((p, _)) => p,
            Err(e) => {
                return Err(e);
            },
        };
        assert(p@ == started(b.len() as int));
        while !p.done
            invariant
                p.wf(),
                parse_layout(p@),
                b == bytes@,
                n == bytes.len(),
                b.len() % 2880 == 0,
                run_parser(p@, b) == spec_parse_bytes(b),
            decreases bytes_left(b.len() as int, p@.cur_offset),
        {
            if n < BLOCK_LEN as u64 || p.cur_offset > n - BLOCK_LEN as u64 {
                return Err(FitsFormatError::Truncated);
            }
            let pos = p.cur_offset as usize;
            let block = vstd::slice::slice_subrange(bytes, pos, pos + BLOCK_LEN);
            let ghost before = p@;
            proof {
                law_feed_keeps_layout(before, block@);
            }
            match p.feed(block) {
                Ok(_) => {},
                Err(e) => {
                    return Err(e);
                },
            }
        }
        Ok(p)
    }

    fn continue_scan(&mut self, s: HduScan, block: &[u8], bo: usize) -> (res: Result<ParserAction, FitsFormatError>)
        requires
            old(self).wf(),
            s.naxis.len() < 1000,
            block.len() == BLOCK_LEN,
            bo % RECORD_LEN == 0,
            bo <= BLOCK_LEN,
        ensures
            match (ParserModel { scan: old(self)@.scan, ..old(self)@ }).continue_scan(s@, block@, bo as int) {
                Ok((m, a)) => res == Ok::<ParserAction, FitsFormatError>(a) && final(self)@ == m && final(self).wf(),
                Err(e) => res == Err::<ParserAction, FitsFormatError>(e),
            },
    {
        let mut s2 = s;
        let ended = scan_block_exec(&mut s2, block, bo)?;
        if !ended {
            self.scan = Some(s2);
            return Ok(ParserAction::ReadBlock);
        }
        let (h, d) = finish_hdu_exec(s2, self.hdu_header_offset)?;
        let blocks = d / 2880 + if d % 2880 == 0 { 0 } else { 1 };
        proof {
            assert(padded(d as int) == blocks * 2880) by (nonlinear_arith)
                requires
                    blocks == d / 2880 + if d % 2880 == 0 { 0int } else { 1int },
                    d >= 0,
            ;
        }
        if blocks as u128 * 2880 + self.cur_offset as u128 > self.file_size as u128 {
            return Err(FitsFormatError::Truncated);
        }
        let next = self.cur_offset + (blocks as u64) * 2880;
        self.hdus.push(h);
        self.scan = None;
        self.hdu_header_offset = next;
        self.cur_offset = next;
        proof {
            assert(self@.hdus =~= old(self)@.hdus.push(h@));
        }
        if next == self.file_size {
            self.done = true;
            Ok(ParserAction::Done)
        } else {
            Ok(ParserAction::SeekAndReadBlock(next))
        }
    }
}

fn begin_hdu_exec(primary: bool, block: &[u8]) -> (res: Result<Option<HduScan>, FitsFormatError>)
    requires
        block.len() == BLOCK_LEN,
    ensures
        match begin_hdu(primary, block@) {
            Ok(None) => res matches Ok(None),
            Ok(Some(s)) => res matches Ok(Some(x)) && x@ == s && x.naxis.len() == 0,
            Err(e) => res == Err::<Option<HduScan>, FitsFormatError>(e),
        },
{
    let first = vstd::slice::slice_subrange(block, 0, 80);
    let kind = if primary {
        if !record_has_prefix(first, FITS_MARKER.as_slice()) {
            return Err(FitsFormatError::NoSimpleMarker);
        }
        HduKind::PrimaryArray
    } else {
        if !record_has_prefix(first, XTENSION_MARKER.as_slice()) {
            return Ok(None);
        }
        let b = fixed_string_bytes(first)?;
        proof {
            super::records::lemma_fixed_string_printable(first@);
        }
        extension_kind_exec(b)
    };
    let second = vstd::slice::slice_subrange(block, 80, 160);
    if !record_has_prefix(second, BITPIX_MARKER.as_slice()) {
        return Err(FitsFormatError::SecondNotBitpix);
    }
    let v = parse_fixed_int(second)?;
    let bitpix = Bitpix::from_value(v)?;
    let third = vstd::slice::slice_subrange(block, 160, 240);
    if !record_has_prefix(third, NAXIS_MARKER.as_slice()) {
        return Err(FitsFormatError::ThirdNotNaxis);
    }
    let n = parse_fixed_int(third)?;
    if n < 0 || n > 999 {
        return Err(FitsFormatError::UnsupportedNaxis(n));
    }
    let s = HduScan {
        kind,
        primary,
        bitpix,
        naxis: Vec::new(),
        seen_groups: !primary,
        pcount: 0,
        gcount: 1,
        n_header_records: 3,
        extname: None,
    };
    assert(s@.naxis =~= Seq::<usize>::empty());
    Ok(Some(s))
}

fn extension_kind_exec(b: Vec<u8>) -> (k: HduKind)
    requires
        all_ascii(b@),
    ensures
        k@ == extension_kind(b@),
{
    if b.len() == 5 && b[0] == 73 && b[1] == 77 && b[2] == 65 && b[3] == 71 && b[4] == 69 {
        assert(b@ =~= seq![73u8, 77u8, 65u8, 71u8, 69u8]);
        HduKind::ImageExtension
    } else if b.len() == 5 && b[0] == 84 && b[1] == 65 && b[2] == 66 && b[3] == 76 && b[4] == 69 {
        assert(b@ =~= seq![84u8, 65u8, 66u8, 76u8, 69u8]);
        HduKind::AsciiTableExtension
    } else if b.len() == 8 && b[0] == 66 && b[1] == 73 && b[2] == 78 && b[3] == 84 && b[4] == 65
        && b[5] == 66 && b[6] == 76 && b[7] == 69 {
        assert(b@ =~= seq![66u8, 73u8, 78u8, 84u8, 65u8, 66u8, 76u8, 69u8]);
        HduKind::BinaryTableExtension
    } else {
        HduKind::OtherExtension(ascii_to_string(b))
    }
}

fn scan_record_exec(s: &mut HduScan, r: &[u8]) -> (res: Result<bool, FitsFormatError>)
    requires
        r.len() == RECORD_LEN,
        old(s).naxis.len() < 1000,
    ensures
        match scan_record(old(s)@, r@) {
            Ok(None) => res == Ok::<bool, FitsFormatError>(false) && final(s)@ == old(s)@ && final(s).naxis.len() < 1000,
            Ok(Some(m)) => res == Ok::<bool, FitsFormatError>(true) && final(s)@ == m && final(s).naxis.len() < 1000,
            Err(e) => res == Err::<bool, FitsFormatError>(e),
        },
{
    let n = s.n_header_records.saturating_add(1);
    if accumulate_naxis_value(r, &mut s.naxis)? {
        s.n_header_records = n;
        return Ok(true);
    }
    if record_has_prefix(r, GROUPS_MARKER.as_slice()) {
        s.seen_groups = true;
    } else if s.seen_groups && record_has_prefix(r, PCOUNT_MARKER.as_slice()) {
        s.pcount = parse_fixed_int(r)?;
    } else if s.seen_groups && record_has_prefix(r, GCOUNT_MARKER.as_slice()) {
        let v = parse_fixed_int(r)?;
        if v < 0 {
            return Err(FitsFormatError::NegativeGcount);
        }
        s.gcount = v as usize;
    } else if record_has_prefix(r, EXTNAME_MARKER.as_slice()) {
        let b = fixed_string_bytes(r)?;
        proof {
            super::records::lemma_fixed_string_printable(r@);
        }
        s.extname = Some(ascii_to_string(b));
    } else if record_is_end(r) {
        return Ok(false);
    }
    s.n_header_records = n;
    Ok(true)
}

fn scan_block_exec(s: &mut HduScan, block: &[u8], bo: usize) -> (res: Result<bool, FitsFormatError>)
    requires
        block.len() == BLOCK_LEN,
        bo % RECORD_LEN == 0,
        bo <= BLOCK_LEN,
        old(s).naxis.len() < 1000,
    ensures
        match scan_block(old(s)@, block@, bo as int) {
            Ok((m, ended)) => res == Ok::<bool, FitsFormatError>(ended) && final(s)@ == m && final(s).naxis.len() < 1000,
            Err(e) => res == Err::<bool, FitsFormatError>(e),
        },
{
    let ghost whole = scan_block(s@, block@, bo as int);
    let ghost s0 = s@;
    let ghost bo0 = bo as int;
    let mut pos = bo;
    while pos + RECORD_LEN <= BLOCK_LEN
        invariant
            whole == scan_block(s0, block@, bo0),
            bo0 == bo as int,
            s0 == old(s)@,
            block.len() == BLOCK_LEN,
            pos % RECORD_LEN == 0,
            pos <= BLOCK_LEN,
            s.naxis.len() < 1000,
            whole == scan_block(s@, block@, pos as int),
        decreases BLOCK_LEN - pos,
    {
        let r = vstd::slice::slice_subrange(block, pos, pos + RECORD_LEN);
        let ghost before = s@;
        assert(r@ == block@.subrange(pos as int, pos + RECORD_LEN));
        let more = scan_record_exec(s, r);
        match more {
            Err(e) => {
                assert(whole == Err::<(ScanModel, bool), FitsFormatError>(e));
                return Err(e);
            },
            Ok(false) => {
                assert(whole == Ok::<(ScanModel, bool), FitsFormatError>((before, true)));
                return Ok(true);
            },
            Ok(true) => {},
        }
        pos = pos + RECORD_LEN;
    }
    Ok(false)
}

fn finish_hdu_exec(s: HduScan, header_offset: u64) -> (res: Result<(ParsedHdu, usize), FitsFormatError>)
    ensures
        match finish_hdu(s@, header_offset as int) {
            Ok((h, d)) => res matches Ok((x, e)) && x@ == h && e == d,
            Err(e) => res == Err::<(ParsedHdu, usize), FitsFormatError>(e),
        },
{
    let HduScan { kind, primary, bitpix, naxis, seen_groups, pcount, gcount, n_header_records, extname } = s;
    let name = if primary {
        String::new()
    } else {
        match extname {
            Some(n) => n,
            None => {
                return Err(FitsFormatError::MissingExtname);
            },
        }
    };
    if seen_groups && primary && naxis.len() == 0 {
        return Err(FitsFormatError::GroupsWithoutAxes);
    }
    let d = data_size(if primary { 0 } else { 1 }, seen_groups, &naxis, pcount, gcount, bitpix)?;
    let kind = if !primary {
        kind
    } else if d == 0 {
        HduKind::PrimaryNoData
    } else if seen_groups {
        HduKind::PrimaryRandomGroups
    } else {
        HduKind::PrimaryArray
    };
    let mut naxis = naxis;
    if seen_groups && primary {
        naxis.remove(0);
    }
    let h = ParsedHdu { kind, name, header_offset, n_header_records, bitpix, pcount, gcount, naxis };
    Ok((h, d))
}

} // verus!
