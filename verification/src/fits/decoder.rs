//! A decoder for single-pass streaming of a FITS file.
//!
//! The decoder separates a FITS stream into header records and data chunks,
//! one 2880-byte block at a time, with just enough interpretation of the
//! headers to know how many data bytes follow each header unit. It does not
//! read by itself: whoever drives it hands it the next block of the stream
//! whenever `needs_block` says so.

use super::records::{
    accumulate_naxis_value, has_prefix, is_end_record, parse_fixed_int, record_has_prefix,
    record_is_end, spec_fixed_int, spec_naxis_record, Bitpix, FitsFormatError, BITPIX_MARKER,
    DIGIT_NINE, DIGIT_ZERO, FITS_MARKER, GCOUNT_MARKER, GROUPS_MARKER, MINUS, NAXIS_MARKER,
    PCOUNT_MARKER, RECORD_LEN, SPACE, XTENSION_MARKER,
};
use vstd::prelude::*;

verus! {

/// The size of a FITS block.
pub const BLOCK_LEN: usize = 2880;

/// A chunk of FITS stream, as produced by the decoder.
#[derive(Clone, Debug)]
pub enum LowLevelFitsItem {
    /// A single 80-byte header record.
    Header(Vec<u8>),
    /// The end of the headers of the current HDU, with the number of data
    /// bytes that follow.
    EndOfHeaders(usize),
    /// A chunk of data bytes, no more than 2880 of them.
    Data(Vec<u8>),
    /// A 2880-byte block of "special record" data that follows the HDUs.
    SpecialRecordData(Vec<u8>),
}

/// What an item holds, as plain sequences.
pub enum ItemModel {
    Header(Seq<u8>),
    EndOfHeaders(int),
    Data(Seq<u8>),
    SpecialRecordData(Seq<u8>),
}

impl View for LowLevelFitsItem {
    type V = ItemModel;

    open spec fn view(&self) -> ItemModel {
        match self {
            LowLevelFitsItem::Header(v) => ItemModel::Header(v@),
            LowLevelFitsItem::EndOfHeaders(n) => ItemModel::EndOfHeaders(*n as int),
            LowLevelFitsItem::Data(v) => ItemModel::Data(v@),
            LowLevelFitsItem::SpecialRecordData(v) => ItemModel::SpecialRecordData(v@),
        }
    }
}

/// Where the decoder stands in the stream.
#[derive(Clone, Copy, Debug, PartialEq, Eq, Structural)]
pub enum DecoderState {
    Beginning,
    SizingHeaders,
    OtherHeaders,
    Data,
    NewHdu,
    SpecialRecords,
}

/// The decoder's state as plain values.
pub struct DecoderModel {
    pub buf: Seq<u8>,
    pub offset: int,
    pub state: DecoderState,
    pub hdu_num: int,
    pub bitpix: Bitpix,
    pub naxis: Seq<usize>,
    pub seen_groups: bool,
    pub pcount: int,
    pub gcount: int,
    pub data_remaining: int,
}

/// A decoder for single-pass streaming of a FITS file.
pub struct FitsDecoder {
    buf: Vec<u8>,
    offset: usize,
    state: DecoderState,
    hdu_num: usize,
    bitpix: Bitpix,
    naxis: Vec<usize>,
    primary_seen_groups: bool,
    pcount: isize,
    gcount: usize,
    data_remaining: usize,
}

impl View for FitsDecoder {
    type V = DecoderModel;

    closed spec fn view(&self) -> DecoderModel {
        DecoderModel {
            buf: self.buf@,
            offset: self.offset as int,
            state: self.state,
            hdu_num: self.hdu_num as int,
            bitpix: self.bitpix,
            naxis: self.naxis@,
            seen_groups: self.primary_seen_groups,
            pcount: self.pcount as int,
            gcount: self.gcount as int,
            data_remaining: self.data_remaining as int,
        }
    }
}

/// The product of a sequence of lengths.
pub open spec fn product(s: Seq<usize>) -> int
    decreases s.len(),
{
    if s.len() == 0 {
        1
    } else {
        product(s.drop_last()) * s.last()
    }
}

/// The number of data bytes that follow the headers, as the header values
/// in `m` give it: none when there are no axes (`NAXIS = 0`), else
/// `|BITPIX|/8 * GCOUNT * (PCOUNT + NAXIS1 * ... * NAXISn)`, where a
/// random-groups primary HDU leaves out `NAXIS1`.
pub open spec fn spec_data_size(
    hdu_num: int,
    seen_groups: bool,
    naxis: Seq<usize>,
    pcount: int,
    gcount: int,
    bitpix: Bitpix,
) -> Result<int, FitsFormatError> {
    if naxis.len() == 0 {
        Ok(0)
    } else {
        spec_axes_data_size(hdu_num, seen_groups, naxis, pcount, gcount, bitpix)
    }
}

/// The data size that the header values give for a non-empty list of axes.
pub open spec fn spec_axes_data_size(
    hdu_num: int,
    seen_groups: bool,
    naxis: Seq<usize>,
    pcount: int,
    gcount: int,
    bitpix: Bitpix,
) -> Result<int, FitsFormatError> {
    let axes = if hdu_num == 0 && seen_groups && naxis.len() > 0 {
        naxis.drop_first()
    } else {
        naxis
    };
    let p = product(axes);
    if p > isize::MAX {
        Err(FitsFormatError::DataSizeOverflow)
    } else if pcount + p > isize::MAX {
        Err(FitsFormatError::DataSizeOverflow)
    } else if pcount + p < 0 {
        Err(FitsFormatError::NegativeGroupSize)
    } else if bitpix.spec_n_bytes() * gcount * (pcount + p) > usize::MAX {
        Err(FitsFormatError::DataSizeOverflow)
    } else {
        Ok(bitpix.spec_n_bytes() * gcount * (pcount + p))
    }
}

/// Whether `c` may stand in a header keyword.
pub open spec fn is_keyword_char(c: u8) -> bool {
    (DIGIT_ZERO <= c <= DIGIT_NINE) || (65 <= c <= 90) || c == 95 || c == MINUS
}

/// Bytes `i` to 7 of a keyword field, after a blank, must all be blank.
pub open spec fn spec_keyword_tail(r: Seq<u8>, i: int) -> Result<(), FitsFormatError>
    decreases 8 - i,
{
    if i >= 8 {
        Ok(())
    } else if r[i] != SPACE {
        Err(FitsFormatError::MalformedKeyword)
    } else {
        spec_keyword_tail(r, i + 1)
    }
}

/// Whether bytes `i` to 7 of `r` continue a well-formed header keyword:
/// keyword characters, then blanks only.
pub open spec fn spec_keyword(r: Seq<u8>, i: int) -> Result<(), FitsFormatError>
    decreases 8 - i,
{
    if i >= 8 {
        Ok(())
    } else if is_keyword_char(r[i]) {
        spec_keyword(r, i + 1)
    } else if r[i] == SPACE {
        spec_keyword_tail(r, i)
    } else {
        Err(FitsFormatError::KeywordChar(r[i]))
    }
}

impl DecoderModel {
    /// The state in which a new HDU, or special records, are awaited.
    pub open spec fn reset(self) -> DecoderModel {
        DecoderModel {
            state: DecoderState::NewHdu,
            offset: BLOCK_LEN as int,
            bitpix: Bitpix::U8,
            gcount: 1,
            pcount: 0,
            naxis: Seq::empty(),
            data_remaining: 0,
            seen_groups: true,
            ..self
        }
    }

    /// The `END` record: compute the size of the data that follow.
    pub open spec fn end_step(self) -> (DecoderModel, Result<Option<ItemModel>, FitsFormatError>) {
        match spec_data_size(self.hdu_num, self.seen_groups, self.naxis, self.pcount, self.gcount, self.bitpix) {
            Err(e) => (self, Err(e)),
            Ok(d) => if d != 0 {
                (
                    DecoderModel { offset: BLOCK_LEN as int, data_remaining: d, state: DecoderState::Data, ..self },
                    Ok(Some(ItemModel::EndOfHeaders(d))),
                )
            } else {
                (self.reset(), Ok(Some(ItemModel::EndOfHeaders(0))))
            },
        }
    }

    /// A record after the sizing headers.
    pub open spec fn other_step(self, record: Seq<u8>) -> (DecoderModel, Result<Option<ItemModel>, FitsFormatError>) {
        let groups = has_prefix(record, GROUPS_MARKER@);
        let pc = self.seen_groups && has_prefix(record, PCOUNT_MARKER@);
        let gc = self.seen_groups && has_prefix(record, GCOUNT_MARKER@);
        if !groups && !pc && !gc && is_end_record(record) {
            self.end_step()
        } else {
            let updated: Result<DecoderModel, FitsFormatError> = if groups {
                Ok(DecoderModel { seen_groups: true, ..self })
            } else if pc {
                match spec_fixed_int(record) {
                    Err(e) => Err(e),
                    Ok(v) => Ok(DecoderModel { pcount: v, ..self }),
                }
            } else if gc {
                match spec_fixed_int(record) {
                    Err(e) => Err(e),
                    Ok(n) => if n < 0 {
                        Err(FitsFormatError::NegativeGcount)
                    } else {
                        Ok(DecoderModel { gcount: n, ..self })
                    },
                }
            } else {
                Ok(self)
            };
            match updated {
                Err(e) => (self, Err(e)),
                Ok(m2) => match spec_keyword(record, 0) {
                    Err(e) => (m2, Err(e)),
                    Ok(_) => (m2, Ok(Some(ItemModel::Header(record)))),
                },
            }
        }
    }

    /// A record among the sizing headers (`BITPIX`, `NAXIS`, `NAXISn`).
    pub open spec fn sizing_step(self, record: Seq<u8>) -> (DecoderModel, Result<Option<ItemModel>, FitsFormatError>) {
        if has_prefix(record, BITPIX_MARKER@) {
            match spec_fixed_int(record) {
                Err(e) => (self, Err(e)),
                Ok(v) => match Bitpix::spec_from_value(v) {
                    None => (self, Err(FitsFormatError::UnsupportedBitpix(v as isize))),
                    Some(b) => (DecoderModel { bitpix: b, ..self }, Ok(Some(ItemModel::Header(record)))),
                },
            }
        } else if has_prefix(record, NAXIS_MARKER@) {
            match spec_fixed_int(record) {
                Err(e) => (self, Err(e)),
                Ok(v) => if v < 0 || v > 999 {
                    (self, Err(FitsFormatError::UnsupportedNaxis(v as isize)))
                } else {
                    (DecoderModel { naxis: Seq::empty(), ..self }, Ok(Some(ItemModel::Header(record))))
                },
            }
        } else {
            match spec_naxis_record(record, self.naxis.len() as int) {
                Err(e) => (self, Err(e)),
                Ok(Some(n)) => (
                    DecoderModel { naxis: self.naxis.push(n as usize), ..self },
                    Ok(Some(ItemModel::Header(record))),
                ),
                Ok(None) => DecoderModel { state: DecoderState::OtherHeaders, ..self }.other_step(record),
            }
        }
    }

    /// One step with the current block in hand.
    pub open spec fn step_in_block(self) -> (DecoderModel, Result<Option<ItemModel>, FitsFormatError>) {
        if self.state == DecoderState::Data {
            if self.data_remaining > BLOCK_LEN {
                (
                    DecoderModel { offset: BLOCK_LEN as int, data_remaining: self.data_remaining - BLOCK_LEN, ..self },
                    Ok(Some(ItemModel::Data(self.buf))),
                )
            } else {
                (self.reset(), Ok(Some(ItemModel::Data(self.buf.take(self.data_remaining)))))
            }
        } else if self.state == DecoderState::SpecialRecords {
            (DecoderModel { offset: BLOCK_LEN as int, ..self }, Ok(Some(ItemModel::SpecialRecordData(self.buf))))
        } else {
            let record = self.buf.subrange(self.offset, self.offset + RECORD_LEN);
            let m1 = DecoderModel { offset: self.offset + RECORD_LEN, ..self };
            if self.state == DecoderState::Beginning {
                if !has_prefix(record, FITS_MARKER@) {
                    (m1, Err(FitsFormatError::NoSimpleMarker))
                } else {
                    (DecoderModel { state: DecoderState::SizingHeaders, ..m1 }, Ok(Some(ItemModel::Header(record))))
                }
            } else if self.state == DecoderState::NewHdu {
                if !has_prefix(record, XTENSION_MARKER@) {
                    (
                        DecoderModel { state: DecoderState::SpecialRecords, ..m1 },
                        Ok(Some(ItemModel::SpecialRecordData(self.buf))),
                    )
                } else {
                    (
                        DecoderModel {
                            state: DecoderState::SizingHeaders,
                            hdu_num: if m1.hdu_num < usize::MAX { m1.hdu_num + 1 } else { m1.hdu_num },
                            ..m1
                        },
                        Ok(Some(ItemModel::Header(record))),
                    )
                }
            } else if self.state == DecoderState::SizingHeaders {
                m1.sizing_step(record)
            } else {
                m1.other_step(record)
            }
        }
    }

    /// One step of the decoder: `block` is the next block of the stream,
    /// when the decoder needs one, or `None` at the end of the stream.
    pub open spec fn step(self, block: Option<Seq<u8>>) -> (DecoderModel, Result<Option<ItemModel>, FitsFormatError>) {
        if self.offset == BLOCK_LEN {
            match block {
                None => (
                    self,
                    if self.state != DecoderState::NewHdu && self.state != DecoderState::SpecialRecords {
                        Err(FitsFormatError::Truncated)
                    } else {
                        Ok(None)
                    },
                ),
                Some(b) => DecoderModel { buf: b, offset: 0, ..self }.step_in_block(),
            }
        } else {
            self.step_in_block()
        }
    }
}

/// The plain form of a decoder result.
pub open spec fn result_model(res: Result<Option<LowLevelFitsItem>, FitsFormatError>) -> Result<Option<ItemModel>, FitsFormatError> {
    match res {
        Ok(Some(item)) => Ok(Some(item@)),
        Ok(None) => Ok(None),
        Err(e) => Err(e),
    }
}

pub open spec fn block_model(block: Option<&[u8]>) -> Option<Seq<u8>> {
    match block {
        Some(b) => Some(b@),
        None => None,
    }
}

impl FitsDecoder {
    /// The decoder's invariant.
    pub closed spec fn wf(&self) -> bool {
        &&& self.buf.len() == BLOCK_LEN
        &&& self.offset <= BLOCK_LEN
        &&& self.offset % RECORD_LEN == 0
        &&& self.naxis.len() < 1000
    }

    /// A decoder at the start of a stream.
    pub fn new() -> (d: FitsDecoder)
        ensures
            d.wf(),
            model_wf(d@),
            d@ == (DecoderModel {
                buf: Seq::new(BLOCK_LEN as nat, |i: int| 0u8),
                offset: BLOCK_LEN as int,
                state: DecoderState::Beginning,
                hdu_num: 0,
                bitpix: Bitpix::U8,
                naxis: Seq::empty(),
                seen_groups: false,
                pcount: 0,
                gcount: 1,
                data_remaining: 0,
            }),
    {
        let d = FitsDecoder {
            buf: vec![0u8; BLOCK_LEN],
            offset: BLOCK_LEN,
            state: DecoderState::Beginning,
            hdu_num: 0,
            bitpix: Bitpix::U8,
            naxis: Vec::new(),
            primary_seen_groups: false,
            pcount: 0,
            gcount: 1,
            data_remaining: 0,
        };
        assert(d.buf@ =~= Seq::new(BLOCK_LEN as nat, |i: int| 0u8));
        d
    }

    /// Whether the next step needs the next block of the stream.
    pub fn needs_block(&self) -> (b: bool)
        ensures
            b == (self@.offset == BLOCK_LEN),
    {
        self.offset == BLOCK_LEN
    }

    fn reset_for_new_hdu(&mut self)
        requires
            old(self).wf(),
        ensures
            final(self).wf(),
            final(self)@ == old(self)@.reset(),
    {
        self.state = DecoderState::NewHdu;
        self.offset = BLOCK_LEN;
        self.bitpix = Bitpix::U8;
        self.gcount = 1;
        self.pcount = 0;
        self.naxis.clear();
        self.data_remaining = 0;
        self.primary_seen_groups = true;
    }

    /// Get the next item of the stream. `block` is the next 2880-byte block
    /// of the stream when `needs_block` says so, and `None` when the stream
    /// has ended; otherwise it is ignored. `Ok(None)` means the stream ended
    /// where it may.
    pub fn next(&mut self, block: Option<&[u8]>) -> (res: Result<Option<LowLevelFitsItem>, FitsFormatError>)
        requires
            old(self).wf(),
            block matches Some(b) ==> b.len() == BLOCK_LEN,
        ensures
            final(self).wf(),
            (final(self)@, result_model(res)) == old(self)@.step(block_model(block)),
            model_wf(old(self)@) ==> model_wf(final(self)@),
            model_wf(old(self)@) ==> (item_of(result_model(res)) matches Some(i) ==> item_well_sized(i)),
            model_wf(old(self)@) ==> ((res matches Ok(None)) <==> (old(self)@.offset == BLOCK_LEN && block is None
                && (old(self)@.state == DecoderState::NewHdu || old(self)@.state == DecoderState::SpecialRecords))),
    {
        proof {
            if model_wf(self@) {
                law_step_well_sized(self@, block_model(block));
                law_end_of_stream(self@, block_model(block));
            }
        }
        if self.offset == BLOCK_LEN {
            match block {
                None => {
                    if self.state != DecoderState::NewHdu && self.state != DecoderState::SpecialRecords {
                        return Err(FitsFormatError::Truncated);
                    }
                    return Ok(None);
                },
                Some(b) => {
                    self.buf = vstd::slice::slice_to_vec(b);
                    self.offset = 0;
                },
            }
        }
        self.step_in_block()
    }

    fn step_in_block(&mut self) -> (res: Result<Option<LowLevelFitsItem>, FitsFormatError>)
        requires
            old(self).wf(),
            old(self)@.offset < BLOCK_LEN,
        ensures
            final(self).wf(),
            (final(self)@, result_model(res)) == old(self)@.step_in_block(),
    {
        if self.state == DecoderState::Data {
            if self.data_remaining > BLOCK_LEN {
                self.offset = BLOCK_LEN;
                self.data_remaining = self.data_remaining - BLOCK_LEN;
                return Ok(Some(LowLevelFitsItem::Data(self.buf.clone())));
            }
            let slice = vstd::slice::slice_to_vec(vstd::slice::slice_subrange(self.buf.as_slice(), 0, self.data_remaining));
            assert(slice@ =~= self.buf@.take(self.data_remaining as int));
            self.reset_for_new_hdu();
            return Ok(Some(LowLevelFitsItem::Data(slice)));
        }
        if self.state == DecoderState::SpecialRecords {
            self.offset = BLOCK_LEN;
            return Ok(Some(LowLevelFitsItem::SpecialRecordData(self.buf.clone())));
        }
        assert(self.offset + RECORD_LEN <= BLOCK_LEN) by (nonlinear_arith)
            requires
                self.offset < BLOCK_LEN,
                self.offset % RECORD_LEN == 0,
        ;
        let record = vstd::slice::slice_to_vec(vstd::slice::slice_subrange(self.buf.as_slice(), self.offset, self.offset + RECORD_LEN));
        assert(record@ =~= self.buf@.subrange(self.offset as int, self.offset + RECORD_LEN));
        self.offset = self.offset + RECORD_LEN;
        if self.state == DecoderState::Beginning {
            if !record_has_prefix(record.as_slice(), FITS_MARKER.as_slice()) {
                return Err(FitsFormatError::NoSimpleMarker);
            }
            self.state = DecoderState::SizingHeaders;
            return Ok(Some(LowLevelFitsItem::Header(record)));
        }
        if self.state == DecoderState::NewHdu {
            if !record_has_prefix(record.as_slice(), XTENSION_MARKER.as_slice()) {
                self.state = DecoderState::SpecialRecords;
                return Ok(Some(LowLevelFitsItem::SpecialRecordData(self.buf.clone())));
            }
            self.state = DecoderState::SizingHeaders;
            self.hdu_num = self.hdu_num.saturating_add(1);
            return Ok(Some(LowLevelFitsItem::Header(record)));
        }
        if self.state == DecoderState::SizingHeaders {
            return self.sizing_step(record);
        }
        self.other_step(record)
    }

    fn sizing_step(&mut self, record: Vec<u8>) -> (res: Result<Option<LowLevelFitsItem>, FitsFormatError>)
        requires
            old(self).wf(),
            record.len() == RECORD_LEN,
        ensures
            final(self).wf(),
            (final(self)@, result_model(res)) == old(self)@.sizing_step(record@),
    {
        if record_has_prefix(record.as_slice(), BITPIX_MARKER.as_slice()) {
            let v = parse_fixed_int(record.as_slice())?;
            self.bitpix = Bitpix::from_value(v)?;
            return Ok(Some(LowLevelFitsItem::Header(record)));
        }
        if record_has_prefix(record.as_slice(), NAXIS_MARKER.as_slice()) {
            let v = parse_fixed_int(record.as_slice())?;
            if v < 0 || v > 999 {
                return Err(FitsFormatError::UnsupportedNaxis(v));
            }
            self.naxis.clear();
            return Ok(Some(LowLevelFitsItem::Header(record)));
        }
        if accumulate_naxis_value(record.as_slice(), &mut self.naxis)? {
            return Ok(Some(LowLevelFitsItem::Header(record)));
        }
        self.state = DecoderState::OtherHeaders;
        self.other_step(record)
    }

    fn other_step(&mut self, record: Vec<u8>) -> (res: Result<Option<LowLevelFitsItem>, FitsFormatError>)
        requires
            old(self).wf(),
            record.len() == RECORD_LEN,
        ensures
            final(self).wf(),
            (final(self)@, result_model(res)) == old(self)@.other_step(record@),
    {
        let r = record.as_slice();
        if record_has_prefix(r, GROUPS_MARKER.as_slice()) {
            self.primary_seen_groups = true;
        } else if self.primary_seen_groups && record_has_prefix(r, PCOUNT_MARKER.as_slice()) {
            self.pcount = parse_fixed_int(r)?;
        } else if self.primary_seen_groups && record_has_prefix(r, GCOUNT_MARKER.as_slice()) {
            let n = parse_fixed_int(r)?;
            if n < 0 {
                return Err(FitsFormatError::NegativeGcount);
            }
            self.gcount = n as usize;
        } else if record_is_end(r) {
            return self.end_step();
        }
        check_keyword(r)?;
        Ok(Some(LowLevelFitsItem::Header(record)))
    }

    fn end_step(&mut self) -> (res: Result<Option<LowLevelFitsItem>, FitsFormatError>)
        requires
            old(self).wf(),
        ensures
            final(self).wf(),
            (final(self)@, result_model(res)) == old(self)@.end_step(),
    {
        let d = data_size(self.hdu_num, self.primary_seen_groups, &self.naxis, self.pcount, self.gcount, self.bitpix)?;
        if d != 0 {
            self.offset = BLOCK_LEN;
            self.data_remaining = d;
            self.state = DecoderState::Data;
            Ok(Some(LowLevelFitsItem::EndOfHeaders(d)))
        } else {
            self.reset_for_new_hdu();
            Ok(Some(LowLevelFitsItem::EndOfHeaders(0)))
        }
    }
}

/// Check that bytes 0 to 7 of `record` form a well-formed header keyword.
pub fn check_keyword(record: &[u8]) -> (res: Result<(), FitsFormatError>)
    requires
        record.len() >= 8,
    ensures
        res == spec_keyword(record@, 0),
{
    let mut i: usize = 0;
    while i < 8
        invariant_except_break
            i <= 8,
            record.len() >= 8,
            spec_keyword(record@, 0) == spec_keyword(record@, i as int),
        ensures
            i <= 8,
            spec_keyword(record@, 0) == spec_keyword_tail(record@, i as int),
        decreases 8 - i,
    {
        let c = record[i];
        if (DIGIT_ZERO <= c && c <= DIGIT_NINE) || (65 <= c && c <= 90) || c == 95 || c == MINUS {
            i += 1;
        } else if c == SPACE {
            break;
        } else {
            return Err(FitsFormatError::KeywordChar(c));
        }
    }
    while i < 8
        invariant
            i <= 8,
            record.len() >= 8,
            spec_keyword(record@, 0) == spec_keyword_tail(record@, i as int),
        decreases 8 - i,
    {
        if record[i] != SPACE {
            return Err(FitsFormatError::MalformedKeyword);
        }
        i += 1;
    }
    Ok(())
}

/// Multiply, saturating at `usize::MAX`.
fn saturating_product(a: usize, b: usize) -> (r: usize)
    ensures
        r == (if a * b > usize::MAX { usize::MAX as int } else { a * b }),
{
    match a.checked_mul(b) {
        Some(x) => x,
        None => usize::MAX,
    }
}

/// The number of data bytes that follow a header unit with these values.
pub fn data_size(
    hdu_num: usize,
    seen_groups: bool,
    naxis: &Vec<usize>,
    pcount: isize,
    gcount: usize,
    bitpix: Bitpix,
) -> (res: Result<usize, FitsFormatError>)
    ensures
        match spec_data_size(hdu_num as int, seen_groups, naxis@, pcount as int, gcount as int, bitpix) {
            Ok(d) => res == Ok::<usize, FitsFormatError>(d as usize),
            Err(e) => res == Err::<usize, FitsFormatError>(e),
        },
{
    if naxis.len() == 0 {
        return Ok(0);
    }
    let ghost axes = if hdu_num == 0 && seen_groups && naxis.len() > 0 {
        naxis@.drop_first()
    } else {
        naxis@
    };
    let start: usize = if hdu_num == 0 && seen_groups && naxis.len() > 0 { 1 } else { 0 };
    let mut p: usize = 1;
    let mut i: usize = start;
    while i < naxis.len()
        invariant
            start <= i <= naxis.len(),
            axes == naxis@.subrange(start as int, naxis.len() as int),
            p == (if product(naxis@.subrange(start as int, i as int)) > usize::MAX {
                usize::MAX as int
            } else {
                product(naxis@.subrange(start as int, i as int))
            }),
            product(naxis@.subrange(start as int, i as int)) >= 0,
        decreases naxis.len() - i,
    {
        let ghost prev = product(naxis@.subrange(start as int, i as int));
        let a = naxis[i];
        proof {
            assert(naxis@.subrange(start as int, i + 1).drop_last() =~= naxis@.subrange(start as int, i as int));
            assert(product(naxis@.subrange(start as int, i + 1)) == prev * a);
            assert(prev * a >= 0) by (nonlinear_arith)
                requires
                    prev >= 0,
                    a >= 0,
            ;
            if a == 0 {
                assert(prev * a == 0) by (nonlinear_arith)
                    requires
                        a == 0,
                ;
            }
            if prev >= usize::MAX && a >= 1 {
                assert(prev * a >= prev) by (nonlinear_arith)
                    requires
                        prev >= 0,
                        a >= 1,
                ;
            }
        }
        p = if p == usize::MAX {
            if a == 0 {
                0
            } else {
                usize::MAX
            }
        } else {
            saturating_product(p, a)
        };
        i += 1;
    }
    proof {
        assert(naxis@.subrange(start as int, naxis.len() as int) =~= axes);
    }
    if p > isize::MAX as usize {
        return Err(FitsFormatError::DataSizeOverflow);
    }
    let pi = p as isize;
    let g = match pcount.checked_add(pi) {
        Some(g) => g,
        None => {
            return Err(FitsFormatError::DataSizeOverflow);
        },
    };
    if g < 0 {
        return Err(FitsFormatError::NegativeGroupSize);
    }
    if g == 0 {
        proof {
            let ng = bitpix.spec_n_bytes() * gcount;
            assert(ng * (pcount + product(axes)) == 0) by (nonlinear_arith)
                requires
                    pcount + product(axes) == 0,
            ;
        }
        return Ok(0);
    }
    let nb = bitpix.n_bytes();
    let x = match nb.checked_mul(gcount) {
        Some(x) => x,
        None => {
            proof {
                let ng = nb * gcount;
                let gi = g as int;
                assert(ng * gi >= ng) by (nonlinear_arith)
                    requires
                        ng >= 0,
                        gi >= 1,
                ;
            }
            return Err(FitsFormatError::DataSizeOverflow);
        },
    };
    match x.checked_mul(g as usize) {
        Some(d) => Ok(d),
        None => Err(FitsFormatError::DataSizeOverflow),
    }
}

/// The invariant of a decoder's state: a whole block in hand, read up to a
/// record boundary; while data are streamed, a block is needed for each
/// chunk and some data remain.
pub open spec fn model_wf(m: DecoderModel) -> bool {
    &&& m.buf.len() == BLOCK_LEN
    &&& 0 <= m.offset <= BLOCK_LEN
    &&& m.offset % (RECORD_LEN as int) == 0
    &&& m.state == DecoderState::Data ==> m.data_remaining > 0 && m.offset == BLOCK_LEN
    &&& 0 <= m.data_remaining
    &&& 0 <= m.gcount
}

/// A block fit to hand the decoder: 2880 bytes, or the end of the stream.
pub open spec fn block_ok(block: Option<Seq<u8>>) -> bool {
    block matches Some(b) ==> b.len() == BLOCK_LEN
}

/// The item of a decoder result, if it has one.
pub open spec fn item_of(r: Result<Option<ItemModel>, FitsFormatError>) -> Option<ItemModel> {
    match r {
        Ok(Some(i)) => Some(i),
        _ => None,
    }
}

/// The sizes that the items of the stream have: a header is one 80-byte
/// record, a data chunk holds 1 to 2880 bytes, special-record data a whole
/// 2880-byte block.
pub open spec fn item_well_sized(i: ItemModel) -> bool {
    match i {
        ItemModel::Header(r) => r.len() == RECORD_LEN,
        ItemModel::Data(d) => 0 < d.len() <= BLOCK_LEN,
        ItemModel::SpecialRecordData(d) => d.len() == BLOCK_LEN,
        ItemModel::EndOfHeaders(n) => n >= 0,
    }
}

proof fn lemma_record_bounds(offset: int)
    requires
        0 <= offset < BLOCK_LEN,
        offset % (RECORD_LEN as int) == 0,
    ensures
        offset + RECORD_LEN <= BLOCK_LEN,
        (offset + RECORD_LEN) % (RECORD_LEN as int) == 0,
{
}

/// Every step keeps the decoder's invariant, and every item it produces has
/// the size that its kind promises.
pub proof fn law_step_well_sized(m: DecoderModel, block: Option<Seq<u8>>)
    requires
        model_wf(m),
        block_ok(block),
    ensures
        model_wf(m.step(block).0),
        item_of(m.step(block).1) matches Some(i) ==> item_well_sized(i),
{
    let m0 = if m.offset == BLOCK_LEN {
        match block {
            None => m,
            Some(b) => DecoderModel { buf: b, offset: 0, ..m },
        }
    } else {
        m
    };
    if m.offset == BLOCK_LEN && block is None {
        return;
    }
    if m0.state != DecoderState::Data && m0.state != DecoderState::SpecialRecords {
        lemma_record_bounds(m0.offset);
        let record = m0.buf.subrange(m0.offset, m0.offset + RECORD_LEN);
        assert(record.len() == RECORD_LEN);
        let m1 = DecoderModel { offset: m0.offset + RECORD_LEN, ..m0 };
        if m0.state == DecoderState::SizingHeaders {
            match spec_naxis_record(record, m1.naxis.len() as int) {
                Ok(None) => {
                    if !has_prefix(record, BITPIX_MARKER@) && !has_prefix(record, NAXIS_MARKER@) {
                        let m2 = DecoderModel { state: DecoderState::OtherHeaders, ..m1 };
                        lemma_other_step_wf(m2, record);
                    }
                },
                _ => {},
            }
        } else if m0.state == DecoderState::OtherHeaders {
            lemma_other_step_wf(m1, record);
        }
    }
}

proof fn lemma_other_step_wf(m: DecoderModel, record: Seq<u8>)
    requires
        m.buf.len() == BLOCK_LEN,
        0 <= m.offset <= BLOCK_LEN,
        m.offset % (RECORD_LEN as int) == 0,
        m.state == DecoderState::OtherHeaders,
        0 <= m.data_remaining,
        0 <= m.gcount,
        record.len() == RECORD_LEN,
    ensures
        model_wf(m.other_step(record).0),
        item_of(m.other_step(record).1) matches Some(i) ==> item_well_sized(i),
{
    match spec_axes_data_size(m.hdu_num, m.seen_groups, m.naxis, m.pcount, m.gcount, m.bitpix) {
        Ok(d) => {
            let axes = if m.hdu_num == 0 && m.seen_groups && m.naxis.len() > 0 {
                m.naxis.drop_first()
            } else {
                m.naxis
            };
            let g = m.pcount + product(axes);
            let nb = m.bitpix.spec_n_bytes() as int;
            assert(nb * m.gcount * g >= 0) by (nonlinear_arith)
                requires
                    nb >= 0,
                    m.gcount >= 0,
                    g >= 0,
            ;
        },
        Err(_) => {},
    }
}

/// The stream may end only between HDUs or in the special records: the
/// decoder reports the end (`Ok(None)`) exactly when it needs a block, none
/// comes, and it stands at such a point.
pub proof fn law_end_of_stream(m: DecoderModel, block: Option<Seq<u8>>)
    requires
        model_wf(m),
        block_ok(block),
    ensures
        (m.step(block).1 == Ok::<Option<ItemModel>, FitsFormatError>(None)) <==> (m.offset == BLOCK_LEN
            && block is None && (m.state == DecoderState::NewHdu || m.state == DecoderState::SpecialRecords)),
{
    if !(m.offset == BLOCK_LEN && block is None) {
        let m0 = if m.offset == BLOCK_LEN {
            match block {
                None => m,
                Some(b) => DecoderModel { buf: b, offset: 0, ..m },
            }
        } else {
            m
        };
        if m0.state != DecoderState::Data && m0.state != DecoderState::SpecialRecords {
            lemma_record_bounds(m0.offset);
        }
    }
}

/// Once special records begin, no more HDUs are detected: the decoder
/// stays among them.
pub proof fn law_special_records_last(m: DecoderModel, block: Option<Seq<u8>>)
    requires
        model_wf(m),
        block_ok(block),
        m.state == DecoderState::SpecialRecords,
    ensures
        m.step(block).0.state == DecoderState::SpecialRecords,
{
}

/// Feeding the decoder blocks while it streams data: the state after, and
/// the data bytes it hands out, in order.
pub open spec fn feed_data(m: DecoderModel, blocks: Seq<Seq<u8>>) -> (DecoderModel, Seq<u8>)
    decreases blocks.len(),
{
    if blocks.len() == 0 || m.state != DecoderState::Data {
        (m, Seq::empty())
    } else {
        let (m2, r) = m.step(Some(blocks[0]));
        match r {
            Ok(Some(ItemModel::Data(x))) => {
                let (m3, rest) = feed_data(m2, blocks.drop_first());
                (m3, x + rest)
            },
            _ => (m2, Seq::empty()),
        }
    }
}

/// The bytes of a sequence of blocks, one after another.
pub open spec fn concat_blocks(blocks: Seq<Seq<u8>>) -> Seq<u8>
    decreases blocks.len(),
{
    if blocks.len() == 0 {
        Seq::empty()
    } else {
        blocks[0] + concat_blocks(blocks.drop_first())
    }
}

/// After `EndOfHeaders(n)`, exactly `n` data bytes follow: the decoder
/// hands out the first `n` bytes of the blocks it is fed, one block per
/// 2880 bytes, and then awaits a new HDU.
pub proof fn law_data_accounting(m: DecoderModel, blocks: Seq<Seq<u8>>)
    requires
        model_wf(m),
        m.state == DecoderState::Data,
        blocks.len() * BLOCK_LEN >= m.data_remaining,
        forall|i: int| 0 <= i < blocks.len() ==> (#[trigger] blocks[i]).len() == BLOCK_LEN,
    ensures
        feed_data(m, blocks).1 == concat_blocks(blocks).take(m.data_remaining),
        feed_data(m, blocks).0.state == DecoderState::NewHdu,
    decreases blocks.len(),
{
    let rem = m.data_remaining;
    assert(blocks.len() > 0) by (nonlinear_arith)
        requires
            blocks.len() * BLOCK_LEN >= rem,
            rem > 0,
    ;
    let b0 = blocks[0];
    let rest = blocks.drop_first();
    assert forall|i: int| 0 <= i < rest.len() implies (#[trigger] rest[i]).len() == BLOCK_LEN by {
        assert(rest[i] == blocks[i + 1]);
    }
    lemma_concat_len(rest);
    let all = concat_blocks(blocks);
    assert(all == b0 + concat_blocks(rest));
    let (m2, r) = m.step(Some(b0));
    if rem > BLOCK_LEN {
        assert(rest.len() * BLOCK_LEN >= rem - BLOCK_LEN) by (nonlinear_arith)
            requires
                blocks.len() * BLOCK_LEN >= rem,
                rest.len() == blocks.len() - 1,
        ;
        law_data_accounting(m2, rest);
        assert(b0 + concat_blocks(rest).take(rem - BLOCK_LEN) =~= all.take(rem));
    } else {
        assert(all.take(rem) =~= b0.take(rem));
        assert(b0.take(rem) + Seq::<u8>::empty() =~= b0.take(rem));
    }
}

proof fn lemma_concat_len(blocks: Seq<Seq<u8>>)
    requires
        forall|i: int| 0 <= i < blocks.len() ==> (#[trigger] blocks[i]).len() == BLOCK_LEN,
    ensures
        concat_blocks(blocks).len() == blocks.len() * BLOCK_LEN,
    decreases blocks.len(),
{
    if blocks.len() > 0 {
        let rest = blocks.drop_first();
        assert forall|i: int| 0 <= i < rest.len() implies (#[trigger] rest[i]).len() == BLOCK_LEN by {
            assert(rest[i] == blocks[i + 1]);
        }
        lemma_concat_len(rest);
        assert(blocks.len() * BLOCK_LEN == rest.len() * BLOCK_LEN + BLOCK_LEN) by (nonlinear_arith)
            requires
                rest.len() == blocks.len() - 1,
        ;
    }
}


/// The results of a run of decoder steps, each handed the next input of
/// `ins`, up to and including the first result that carries no item.
pub open spec fn run(m: DecoderModel, ins: Seq<Option<Seq<u8>>>) -> Seq<Result<Option<ItemModel>, FitsFormatError>>
    decreases ins.len(),
{
    if ins.len() == 0 {
        Seq::empty()
    } else {
        let (m2, r) = m.step(ins[0]);
        match r {
            Ok(Some(_)) => seq![r] + run(m2, ins.drop_first()),
            _ => seq![r],
        }
    }
}

/// The bytes of the `Data` items at the head of `rs`, up to the first
/// result of another kind.
pub open spec fn leading_data(rs: Seq<Result<Option<ItemModel>, FitsFormatError>>) -> Seq<u8>
    decreases rs.len(),
{
    if rs.len() == 0 {
        Seq::empty()
    } else {
        match rs[0] {
            Ok(Some(ItemModel::Data(d))) => d + leading_data(rs.drop_first()),
            _ => Seq::empty(),
        }
    }
}

/// Whether the `Data` items at the head of `rs` are followed by a result
/// that is not an error.
pub open spec fn data_then_ok(rs: Seq<Result<Option<ItemModel>, FitsFormatError>>) -> bool
    decreases rs.len(),
{
    if rs.len() == 0 {
        false
    } else {
        match rs[0] {
            Ok(Some(ItemModel::Data(_))) => data_then_ok(rs.drop_first()),
            r => r is Ok,
        }
    }
}

/// The data of an `EndOfHeaders(n)` result at `j` are accounted for: when
/// the `Data` items after it end without an error, they hold `n` bytes.
pub open spec fn data_accounted(rs: Seq<Result<Option<ItemModel>, FitsFormatError>>, j: int) -> bool {
    match rs[j] {
        Ok(Some(ItemModel::EndOfHeaders(n))) => data_then_ok(rs.skip(j + 1)) ==> leading_data(rs.skip(j + 1)).len() == n,
        _ => true,
    }
}

proof fn lemma_cons_run(r: Result<Option<ItemModel>, FitsFormatError>, rest: Seq<Result<Option<ItemModel>, FitsFormatError>>)
    ensures
        (seq![r] + rest).len() == rest.len() + 1,
        (seq![r] + rest)[0] == r,
        (seq![r] + rest).drop_first() == rest,
        forall|j: int| 0 <= j < rest.len() ==> (seq![r] + rest)[j + 1] == rest[j],
        forall|j: int| 0 <= j < rest.len() ==> (seq![r] + rest).skip(j + 2) == #[trigger] rest.skip(j + 1),
{
    assert((seq![r] + rest).drop_first() =~= rest);
    assert forall|j: int| 0 <= j < rest.len() implies (seq![r] + rest).skip(j + 2) == #[trigger] rest.skip(j + 1) by {
        assert((seq![r] + rest).skip(j + 2) =~= rest.skip(j + 1));
    }
}

proof fn lemma_end_of_headers_state(m: DecoderModel, block: Option<Seq<u8>>)
    requires
        model_wf(m),
        block_ok(block),
    ensures
        m.step(block).1 matches Ok(Some(ItemModel::EndOfHeaders(n))) ==> n == 0 || (m.step(block).0.state
            == DecoderState::Data && m.step(block).0.data_remaining == n),
{
    law_step_well_sized(m, block);
}

proof fn lemma_data_run(m: DecoderModel, ins: Seq<Option<Seq<u8>>>)
    requires
        model_wf(m),
        m.state == DecoderState::Data,
        forall|i: int| 0 <= i < ins.len() ==> block_ok(#[trigger] ins[i]),
    ensures
        data_then_ok(run(m, ins)) ==> leading_data(run(m, ins)).len() == m.data_remaining,
    decreases ins.len(),
{
    if ins.len() == 0 {
        return;
    }
    let rs = run(m, ins);
    let (m2, r) = m.step(ins[0]);
    assert(block_ok(ins[0]));
    match ins[0] {
        None => {
            assert(rs == seq![r]);
            assert(rs.drop_first() =~= Seq::<Result<Option<ItemModel>, FitsFormatError>>::empty());
        },
        Some(b) => {
            let rest_in = ins.drop_first();
            assert forall|i: int| 0 <= i < rest_in.len() implies block_ok(#[trigger] rest_in[i]) by {
                assert(rest_in[i] == ins[i + 1]);
            }
            let rest = run(m2, rest_in);
            assert(rs == seq![r] + rest);
            lemma_cons_run(r, rest);
            if m.data_remaining > BLOCK_LEN {
                lemma_data_run(m2, rest_in);
                assert(r == Ok::<Option<ItemModel>, FitsFormatError>(Some(ItemModel::Data(b))));
                assert(m2.data_remaining == m.data_remaining - BLOCK_LEN);
                assert(data_then_ok(rs) == data_then_ok(rest));
                assert(leading_data(rs) == b + leading_data(rest));
            } else {
                assert(m2.state == DecoderState::NewHdu && m2.offset == BLOCK_LEN);
                if rest_in.len() > 0 {
                    assert(block_ok(rest_in[0]));
                    let (m3, r3) = m2.step(rest_in[0]);
                    assert(!(r3 matches Ok(Some(ItemModel::Data(_)))));
                    assert(rest[0] == r3);
                    assert(leading_data(rest) == Seq::<u8>::empty());
                }
                assert(b.take(m.data_remaining) + Seq::<u8>::empty() =~= b.take(m.data_remaining));
                assert(r == Ok::<Option<ItemModel>, FitsFormatError>(Some(ItemModel::Data(b.take(m.data_remaining)))));
                assert(data_then_ok(rs) == data_then_ok(rest));
                assert(leading_data(rs) == b.take(m.data_remaining) + leading_data(rest));
                if data_then_ok(rs) {
                    assert(rest_in.len() > 0);
                }
            }
        },
    }
}

/// A whole run of the decoder: handed a block whenever it needs one (or
/// the end of the stream), it keeps its invariant, every item it produces
/// has the size its kind promises, and after `EndOfHeaders(n)` the `Data`
/// items that follow hold exactly `n` bytes, unless the stream ends early
/// with an error.
pub proof fn law_whole_run(m: DecoderModel, ins: Seq<Option<Seq<u8>>>)
    requires
        model_wf(m),
        forall|i: int| 0 <= i < ins.len() ==> block_ok(#[trigger] ins[i]),
    ensures
        forall|j: int| 0 <= j < run(m, ins).len() ==> (item_of(#[trigger] run(m, ins)[j]) matches Some(i)
            ==> item_well_sized(i)),
        forall|j: int| 0 <= j < run(m, ins).len() - 1 ==> (#[trigger] run(m, ins)[j]) matches Ok(Some(_)),
        forall|j: int| 0 <= j < run(m, ins).len() ==> #[trigger] data_accounted(run(m, ins), j),
    decreases ins.len(),
{
    if ins.len() == 0 {
        return;
    }
    let rs = run(m, ins);
    let (m2, r) = m.step(ins[0]);
    assert(block_ok(ins[0]));
    law_step_well_sized(m, ins[0]);
    match r {
        Ok(Some(_)) => {
            let rest_in = ins.drop_first();
            assert forall|i: int| 0 <= i < rest_in.len() implies block_ok(#[trigger] rest_in[i]) by {
                assert(rest_in[i] == ins[i + 1]);
            }
            let rest = run(m2, rest_in);
            assert(rs == seq![r] + rest);
            lemma_cons_run(r, rest);
            law_whole_run(m2, rest_in);
            lemma_end_of_headers_state(m, ins[0]);
            match r {
                Ok(Some(ItemModel::EndOfHeaders(n))) => {
                    assert(rs.skip(1) =~= rest);
                    if n != 0 {
                        lemma_data_run(m2, rest_in);
                    } else {
                        assert(m2.state == DecoderState::NewHdu && m2.offset == BLOCK_LEN);
                        if rest_in.len() > 0 {
                            assert(block_ok(rest_in[0]));
                            assert(!(m2.step(rest_in[0]).1 matches Ok(Some(ItemModel::Data(_)))));
                            assert(rest[0] == m2.step(rest_in[0]).1);
                        }
                    }
                },
                _ => {},
            }
            assert forall|j: int| 0 <= j < rs.len() implies #[trigger] data_accounted(rs, j) by {
                if j > 0 {
                    assert(rs[j] == rest[j - 1]);
                    assert(rs.skip(j + 1) == rest.skip(j));
                    assert(data_accounted(rest, j - 1));
                }
            }
            assert forall|j: int| 0 <= j < rs.len() implies (item_of(#[trigger] rs[j]) matches Some(i) ==> item_well_sized(i)) by {
                if j > 0 {
                    assert(rs[j] == rest[j - 1]);
                }
            }
            assert forall|j: int| 0 <= j < rs.len() - 1 implies (#[trigger] rs[j]) matches Ok(Some(_)) by {
                if j > 0 {
                    assert(rs[j] == rest[j - 1]);
                }
            }
        },
        _ => {
            assert(rs == seq![r]);
        },
    }
}


/// The first item of a stream: a new decoder, handed the first block,
/// yields its first record as a header when it begins with `SIMPLE`, and
/// fails otherwise; a stream with no block at all is truncated.
pub proof fn law_first_item(m: DecoderModel, block: Seq<u8>)
    requires
        m.state == DecoderState::Beginning,
        m.offset == BLOCK_LEN,
        block.len() == BLOCK_LEN,
    ensures
        m.step(Some(block)).1 == (if has_prefix(block.subrange(0, RECORD_LEN as int), FITS_MARKER@) {
            Ok::<Option<ItemModel>, FitsFormatError>(Some(ItemModel::Header(block.subrange(0, RECORD_LEN as int))))
        } else {
            Err(FitsFormatError::NoSimpleMarker)
        }),
        m.step(None).1 == Err::<Option<ItemModel>, FitsFormatError>(FitsFormatError::Truncated),
{
}


/// A `PCOUNT` record counts: in the headers of an HDU that has `PCOUNT`
/// (an extension, or a random-groups primary HDU), the record is handed out
/// as a header and its value taken, and the `END` record that follows then
/// announces `|BITPIX|/8 * GCOUNT * (PCOUNT + product of the axes)` data
/// bytes with that value (a random-groups primary HDU leaves out its first
/// axis), whenever these numbers fit in the machine's sizes.
pub proof fn law_pcount_counts(m: DecoderModel, r: Seq<u8>, e: Seq<u8>, v: int)
    requires
        m.state == DecoderState::OtherHeaders,
        m.seen_groups,
        m.naxis.len() > 0,
        r.len() == RECORD_LEN,
        has_prefix(r, PCOUNT_MARKER@),
        spec_fixed_int(r) == Ok::<int, FitsFormatError>(v),
        spec_keyword(r, 0) is Ok,
        is_end_record(e),
    ensures
        m.other_step(r) == (DecoderModel { pcount: v, ..m }, Ok::<Option<ItemModel>, FitsFormatError>(Some(ItemModel::Header(r)))),
        ({
            let axes = if m.hdu_num == 0 { m.naxis.drop_first() } else { m.naxis };
            let g = v + product(axes);
            let d = m.bitpix.spec_n_bytes() * m.gcount * g;
            let after = m.other_step(r).0.other_step(e).1;
            &&& after matches Ok(Some(ItemModel::EndOfHeaders(x))) ==> x == d
            &&& (0 <= g && product(axes) <= isize::MAX && g <= isize::MAX && d <= usize::MAX)
                ==> after == Ok::<Option<ItemModel>, FitsFormatError>(Some(ItemModel::EndOfHeaders(d)))
        }),
{
    assert(r.take(10) == PCOUNT_MARKER@);
    assert(r[0] == 80u8) by {
        assert(r.take(10)[0] == r[0]);
    }
    assert(!has_prefix(r, GROUPS_MARKER@)) by {
        if has_prefix(r, GROUPS_MARKER@) {
            assert(r.take(30)[0] == r[0]);
        }
    }
    assert(!has_prefix(r, GCOUNT_MARKER@)) by {
        if has_prefix(r, GCOUNT_MARKER@) {
            assert(r.take(10)[0] == r[0]);
        }
    }
    assert(!is_end_record(r)) by {
        if is_end_record(r) {
            assert(r.take(3)[0] == r[0]);
        }
    }
    assert(e[0] == 69u8) by {
        assert(e.take(3)[0] == e[0]);
    }
    assert(!has_prefix(e, GROUPS_MARKER@)) by {
        if has_prefix(e, GROUPS_MARKER@) {
            assert(e.take(30)[0] == e[0]);
        }
    }
    assert(!has_prefix(e, PCOUNT_MARKER@)) by {
        if has_prefix(e, PCOUNT_MARKER@) {
            assert(e.take(10)[0] == e[0]);
        }
    }
    assert(!has_prefix(e, GCOUNT_MARKER@)) by {
        if has_prefix(e, GCOUNT_MARKER@) {
            assert(e.take(10)[0] == e[0]);
        }
    }
}

} // verus!
