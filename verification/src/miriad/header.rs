//! The `header` file of a MIRIAD data set, which holds its small items.
//!
//! The file is a sequence of entries, each starting at a multiple of 16
//! bytes: 15 bytes of NUL-padded name and one byte of "aligned length";
//! then, unless that length is zero, a big-endian type code, padding up to
//! the alignment of the type (at least 4), and the data.

use super::mapped::MiriadMappedType;
use super::{MiriadFormatError, Type};
use crate::bytes::{be_u32, read_be_i32, u32_be_bytes, write_be_i32, lemma_be_i32_round_trip};
use crate::text::string_from_utf8;
use vstd::prelude::*;
use vstd::utf8::{decode_utf8, decode_utf8_encode_utf8, encode_utf8, valid_utf8, encode_utf8_decode_utf8, encode_utf8_valid_utf8};

verus! {

/// A small item as the header holds it.
#[derive(Clone, Debug)]
pub struct HeaderItem {
    pub name: String,
    pub ty: Type,
    pub data: Vec<u8>,
}

/// A header entry as plain values.
pub struct HeaderEntry {
    pub name: Seq<char>,
    pub ty: Type,
    pub data: Seq<u8>,
}

impl View for HeaderItem {
    type V = HeaderEntry;

    open spec fn view(&self) -> HeaderEntry {
        HeaderEntry { name: self.name@, ty: self.ty, data: self.data@ }
    }
}

/// How many bytes bring `offset` up to a multiple of `a`.
pub open spec fn pad_amount(offset: int, a: int) -> int {
    if offset % a == 0 {
        0
    } else {
        a - offset % a
    }
}

/// Skipping to the next multiple of `a` in a stream of `len` bytes, at
/// stream position `pos` and counted offset `offset`: at the very end of
/// the stream the skip reads nothing but still counts; part-way through the
/// padding it is an error.
pub open spec fn align_read(len: int, pos: int, offset: int, a: int) -> Result<(int, int), MiriadFormatError> {
    let amt = pad_amount(offset, a);
    if amt == 0 {
        Ok((pos, offset))
    } else if pos == len {
        Ok((pos, offset + amt))
    } else if len - pos < amt {
        Err(MiriadFormatError::UnexpectedEof)
    } else {
        Ok((pos + amt, offset + amt))
    }
}

/// The length of the NUL-terminated name at the start of `rec` (at most 15).
pub open spec fn name_len(rec: Seq<u8>, i: int) -> int
    decreases 15 - i,
{
    if i >= 15 {
        15
    } else if rec[i] == 0 {
        i
    } else {
        name_len(rec, i + 1)
    }
}

pub open spec fn max4(n: int) -> int {
    if n > 4 {
        n
    } else {
        4
    }
}

/// The type, data, position and offset after the part of an entry that
/// follows its 16-byte head, whose last byte is `aligned`.
#[verifier::opaque]
pub open spec fn parse_body(b: Seq<u8>, pos: int, offset: int, aligned: u8) -> Result<(Type, Seq<u8>, int, int), MiriadFormatError> {
    if aligned == 0 {
        Ok((Type::Binary, Seq::empty(), pos, offset))
    } else if b.len() - pos < 4 {
        Err(MiriadFormatError::UnexpectedEof)
    } else {
        let code = be_u32(b[pos], b[pos + 1], b[pos + 2], b[pos + 3]) as i32;
        match Type::spec_from_i32(code) {
            None => Err(MiriadFormatError::IllegalTypeCode(code)),
            Some(t0) => {
                let t = if t0 == Type::Int8 && aligned > 5 { Type::Text } else { t0 };
                let a = max4(t.spec_size() as int);
                match align_read(b.len() as int, pos + 4, offset + 4, a) {
                    Err(e) => Err(e),
                    Ok((p3, o3)) => if (aligned as int) < a {
                        Err(MiriadFormatError::HeaderItemTooShort)
                    } else if (aligned - a) % (t.spec_size() as int) != 0 {
                        Err(MiriadFormatError::IllegalArraySize((aligned - a) as usize, t))
                    } else if b.len() - p3 < aligned - a {
                        Err(MiriadFormatError::UnexpectedEof)
                    } else {
                        Ok((t, b.subrange(p3, p3 + aligned - a), p3 + aligned - a, o3 + aligned - a))
                    },
                }
            },
        }
    }
}

/// The entry at `pos` of the header bytes `b`, with the position and
/// offset after it and the padding that follows it.
#[verifier::opaque]
pub open spec fn parse_entry(b: Seq<u8>, pos: int, offset: int) -> Result<(HeaderEntry, int, int), MiriadFormatError> {
    let rec = b.subrange(pos, pos + 16);
    let name = rec.take(name_len(rec, 0));
    if !valid_utf8(name) {
        Err(MiriadFormatError::NameNotUtf8)
    } else {
        match parse_body(b, pos + 16, offset + 16, rec[15]) {
            Err(e) => Err(e),
            Ok((t, data, p4, o4)) => match align_read(b.len() as int, p4, o4, 16) {
                Err(e) => Err(e),
                Ok((p5, o5)) => Ok((HeaderEntry { name: decode_utf8(name), ty: t, data }, p5, o5)),
            },
        }
    }
}

pub proof fn lemma_parse_entry_advances(b: Seq<u8>, pos: int, offset: int)
    requires
        0 <= pos,
        pos + 16 <= b.len(),
    ensures
        parse_entry(b, pos, offset) matches Ok((_, p, _)) ==> pos + 16 <= p <= b.len(),
{
    reveal(parse_entry);
    reveal(parse_body);
}

/// The entries of the header bytes `b` from position `pos` on.
pub open spec fn parse_header_from(b: Seq<u8>, pos: int, offset: int) -> Result<Seq<HeaderEntry>, MiriadFormatError>
    decreases b.len() - pos,
{
    if pos < 0 || pos >= b.len() {
        Ok(Seq::empty())
    } else if b.len() - pos < 16 {
        Err(MiriadFormatError::UnexpectedEof)
    } else {
        match parse_entry(b, pos, offset) {
            Err(e) => Err(e),
            Ok((e, p, o)) => {
                proof {
                    lemma_parse_entry_advances(b, pos, offset);
                }
                match parse_header_from(b, p, o) {
                    Err(err) => Err(err),
                    Ok(rest) => Ok(seq![e] + rest),
                }
            },
        }
    }
}

/// The entries of a header file.
pub open spec fn spec_parse_header(b: Seq<u8>) -> Result<Seq<HeaderEntry>, MiriadFormatError> {
    parse_header_from(b, 0, 0)
}

pub open spec fn items_view(v: Seq<HeaderItem>) -> Seq<HeaderEntry> {
    v.map_values(|h: HeaderItem| h@)
}

fn align_read_exec(len: usize, pos: usize, offset: usize, a: usize) -> (res: Result<(usize, usize), MiriadFormatError>)
    requires
        1 <= a <= 16,
        pos <= len,
        pos <= offset <= len + 64,
        len <= usize::MAX - 128,
    ensures
        match align_read(len as int, pos as int, offset as int, a as int) {
            Ok((p, o)) => res == Ok::<(usize, usize), MiriadFormatError>((p as usize, o as usize)) && pos <= p <= len
                && (o - p == offset - pos || (p == len && offset - pos <= o - p < offset - pos + a)),
            Err(e) => res == Err::<(usize, usize), MiriadFormatError>(e),
        },
{
    let excess = offset % a;
    if excess == 0 {
        return Ok((pos, offset));
    }
    let amt = a - excess;
    if pos == len {
        Ok((pos, offset + amt))
    } else if len - pos < amt {
        Err(MiriadFormatError::UnexpectedEof)
    } else {
        Ok((pos + amt, offset + amt))
    }
}

fn parse_body_exec(bytes: &[u8], pos: usize, offset: usize, aligned: u8) -> (res: Result<(Type, Vec<u8>, usize, usize), MiriadFormatError>)
    requires
        pos <= bytes.len(),
        offset == pos,
        bytes.len() <= usize::MAX - 128,
    ensures
        match parse_body(bytes@, pos as int, offset as int, aligned) {
            Ok((t, d, p, o)) => res matches Ok((rt, rd, rp, ro)) && rt == t && rd@ == d && rp == p && ro == o
                && pos <= rp <= bytes.len() && (ro == rp || (rp == bytes.len() && rp < ro < rp + 8)),
            Err(e) => res == Err::<(Type, Vec<u8>, usize, usize), MiriadFormatError>(e),
        },
{
    proof {
        reveal(parse_body);
    }
    if aligned == 0 {
        return Ok((Type::Binary, Vec::new(), pos, offset));
    }
    if bytes.len() - pos < 4 {
        return Err(MiriadFormatError::UnexpectedEof);
    }
    let code = read_be_i32(vstd::slice::slice_subrange(bytes, pos, pos + 4));
    let mut ty = Type::try_from_i32(code)?;
    if ty == Type::Int8 && aligned > 5 {
        ty = Type::Text;
    }
    let a = if ty.size() > 4 { ty.size() } else { 4 };
    let (p3, o3) = align_read_exec(bytes.len(), pos + 4, offset + 4, a)?;
    if (aligned as usize) < a {
        return Err(MiriadFormatError::HeaderItemTooShort);
    }
    let n = aligned as usize - a;
    if n % ty.size() != 0 {
        return Err(MiriadFormatError::IllegalArraySize(n, ty));
    }
    if bytes.len() - p3 < n {
        return Err(MiriadFormatError::UnexpectedEof);
    }
    let data = vstd::slice::slice_to_vec(vstd::slice::slice_subrange(bytes, p3, p3 + n));
    Ok((ty, data, p3 + n, o3 + n))
}

fn parse_entry_exec(bytes: &[u8], pos: usize, offset: usize) -> (res: Result<(HeaderItem, usize, usize), MiriadFormatError>)
    requires
        pos + 16 <= bytes.len(),
        offset == pos,
        bytes.len() <= usize::MAX - 128,
    ensures
        match parse_entry(bytes@, pos as int, offset as int) {
            Ok((e, p, o)) => res matches Ok((h, rp, ro)) && h@ == e && rp == p && ro == o && (ro == rp || rp == bytes.len())
                && pos + 16 <= rp <= bytes.len(),
            Err(e) => res == Err::<(HeaderItem, usize, usize), MiriadFormatError>(e),
        },
{
    proof {
        reveal(parse_entry);
    }
    let ghost b = bytes@;
    let ghost rec = b.subrange(pos as int, pos + 16);
    let mut nl: usize = 0;
    while nl < 15 && bytes[pos + nl] != 0
        invariant
            nl <= 15,
            pos + 16 <= bytes.len(),
            rec == bytes@.subrange(pos as int, pos + 16),
            name_len(rec, 0) == name_len(rec, nl as int),
        decreases 15 - nl,
    {
        nl += 1;
    }
    let name_bytes = vstd::slice::slice_to_vec(vstd::slice::slice_subrange(bytes, pos, pos + nl));
    assert(name_bytes@ =~= rec.take(name_len(rec, 0)));
    let name = match string_from_utf8(name_bytes) {
        Some(s) => s,
        None => {
            return Err(MiriadFormatError::NameNotUtf8);
        },
    };
    let aligned = bytes[pos + 15];
    assert(aligned == rec[15]);
    let (ty, data, p4, o4) = parse_body_exec(bytes, pos + 16, offset + 16, aligned)?;
    let (p5, o5) = align_read_exec(bytes.len(), p4, o4, 16)?;
    let h = HeaderItem { name, ty, data };
    Ok((h, p5, o5))
}

/// Parse the bytes of a header file into its entries, in order.
pub fn parse_header(bytes: &[u8]) -> (res: Result<Vec<HeaderItem>, MiriadFormatError>)
    requires
        bytes.len() <= usize::MAX - 128,
    ensures
        match spec_parse_header(bytes@) {
            Ok(es) => res matches Ok(v) && items_view(v@) == es,
            Err(e) => res == Err::<Vec<HeaderItem>, MiriadFormatError>(e),
        },
{
    let ghost b = bytes@;
    let mut items: Vec<HeaderItem> = Vec::new();
    let mut pos: usize = 0;
    let mut offset: usize = 0;
    let ghost whole = spec_parse_header(b);
    assert(items_view(items@) =~= Seq::<HeaderEntry>::empty());
    while pos < bytes.len()
        invariant
            b == bytes@,
            bytes.len() <= usize::MAX - 128,
            pos <= bytes.len(),
            offset == pos || pos == bytes.len(),
            whole == spec_parse_header(b),
            whole == match parse_header_from(b, pos as int, offset as int) {
                Ok(rest) => Ok::<Seq<HeaderEntry>, MiriadFormatError>(items_view(items@) + rest),
                Err(e) => Err(e),
            },
        decreases bytes.len() - pos,
    {
        if bytes.len() - pos < 16 {
            return Err(MiriadFormatError::UnexpectedEof);
        }
        let (h, p, o) = parse_entry_exec(bytes, pos, offset)?;
        let ghost before = items_view(items@);
        items.push(h);
        proof {
            assert(items_view(items@) =~= before.push(h@));
            match parse_header_from(b, p as int, o as int) {
                Ok(rest) => {
                    assert(before + (seq![h@] + rest) =~= items_view(items@) + rest);
                },
                Err(_) => {},
            }
        }
        pos = p;
        offset = o;
    }
    proof {
        assert(items_view(items@) + Seq::<HeaderEntry>::empty() =~= items_view(items@));
    }
    Ok(items)
}

/// `n` zero bytes.
pub open spec fn zeros(n: int) -> Seq<u8> {
    Seq::new(n as nat, |i: int| 0u8)
}

/// The 16-byte head of an entry: the name bytes, NUL-padded, with `last`
/// in the final byte.
pub open spec fn head_record(name: Seq<u8>, last: u8) -> Seq<u8> {
    Seq::new(16, |i: int| if i == 15 { last } else if i < name.len() { name[i] } else { 0u8 })
}

/// The padding between an entry's type code and its data, for an entry
/// whose head starts at the aligned `offset`.
pub open spec fn data_pad(offset: int, ty: Type) -> int {
    pad_amount(offset + 4, max4(ty.spec_size() as int))
}

/// The bytes of one entry whose head starts at `offset`.
pub open spec fn encode_entry(e: HeaderEntry, offset: int) -> Seq<u8> {
    let name = encode_utf8(e.name);
    if e.data.len() == 0 {
        head_record(name, 0)
    } else {
        let nab = data_pad(offset, e.ty);
        head_record(name, ((4 + nab + e.data.len()) % 256) as u8) + u32_be_bytes(e.ty.spec_code() as u32)
            + zeros(nab) + e.data
    }
}

/// The bytes of the entries `es`, written from stream offset `start` on:
/// each entry is preceded by zeros up to a multiple of 16.
pub open spec fn encode_from(es: Seq<HeaderEntry>, start: int) -> Seq<u8>
    decreases es.len(),
{
    if es.len() == 0 {
        Seq::empty()
    } else {
        let first = zeros(pad_amount(start, 16)) + encode_entry(es[0], start + pad_amount(start, 16));
        first + encode_from(es.drop_first(), start + first.len())
    }
}

/// The bytes of a header file that holds the entries `es`, in order.
pub open spec fn spec_encode_header(es: Seq<HeaderEntry>) -> Seq<u8> {
    encode_from(es, 0)
}

proof fn lemma_encode_from_push(es: Seq<HeaderEntry>, e: HeaderEntry, start: int)
    ensures
        ({
            let l = start + encode_from(es, start).len();
            encode_from(es.push(e), start) == encode_from(es, start) + zeros(pad_amount(l, 16))
                + encode_entry(e, l + pad_amount(l, 16))
        }),
    decreases es.len(),
{
    if es.len() == 0 {
        assert(es.push(e).drop_first() =~= Seq::<HeaderEntry>::empty());
        assert(es.push(e)[0] == e);
        let first = zeros(pad_amount(start, 16)) + encode_entry(e, start + pad_amount(start, 16));
        assert(encode_from(Seq::<HeaderEntry>::empty(), start + first.len()) =~= Seq::<u8>::empty());
        assert(first + Seq::<u8>::empty() =~= first);
        assert(encode_from(es.push(e), start) =~= zeros(pad_amount(start, 16)) + encode_entry(e, start + pad_amount(start, 16)));
    } else {
        let first = zeros(pad_amount(start, 16)) + encode_entry(es[0], start + pad_amount(start, 16));
        assert(es.push(e).drop_first() =~= es.drop_first().push(e));
        lemma_encode_from_push(es.drop_first(), e, start + first.len());
        let l = start + encode_from(es, start).len();
        assert(encode_from(es.push(e), start) =~= encode_from(es, start) + zeros(pad_amount(l, 16))
            + encode_entry(e, l + pad_amount(l, 16)));
    }
}

/// Append `n` zero bytes.
pub(crate) fn push_zeros(out: &mut Vec<u8>, n: usize)
    ensures
        final(out)@ == old(out)@ + zeros(n as int),
{
    let ghost start = out@;
    let mut k: usize = 0;
    while k < n
        invariant
            k <= n,
            out@ == start + zeros(k as int),
        decreases n - k,
    {
        out.push(0u8);
        k += 1;
        assert(out@ =~= start + zeros(k as int));
    }
}

/// Append the bytes of `s`.
pub(crate) fn push_all(out: &mut Vec<u8>, s: &[u8])
    ensures
        final(out)@ == old(out)@ + s@,
{
    let ghost start = out@;
    let mut k: usize = 0;
    while k < s.len()
        invariant
            k <= s.len(),
            out@ == start + s@.take(k as int),
        decreases s.len() - k,
    {
        out.push(s[k]);
        k += 1;
        assert(out@ =~= start + s@.take(k as int));
    }
    assert(s@.take(s.len() as int) =~= s@);
}

/// Append one entry, whose head starts at the current (aligned) end of `out`.
fn push_entry(out: &mut Vec<u8>, item: &HeaderItem)
    requires
        encode_utf8(item.name@).len() <= 16,
    ensures
        final(out)@ == old(out)@ + encode_entry(item@, old(out)@.len() as int),
{
    let offset = out.len();
    let name_bytes = item.name.as_str().as_bytes();
    let n_bytes = item.data.len();
    let alignment = if item.ty.size() > 4 { item.ty.size() } else { 4 };
    let excess = (offset % alignment + 4) % alignment;
    let n_alignment_bytes = if excess == 0 { 0 } else { alignment - excess };
    assert(n_alignment_bytes == data_pad(offset as int, item.ty)) by {
        assert(((offset as int) % (alignment as int) + 4) % (alignment as int) == (offset + 4) % (alignment as int)) by (nonlinear_arith)
            requires alignment > 0;
    }
    let last: u8 = if n_bytes == 0 { 0 } else { ((n_bytes % 256 + 4 + n_alignment_bytes) % 256) as u8 };
    assert(n_bytes > 0 ==> last == ((4 + n_alignment_bytes + n_bytes) % 256) as u8) by {
        assert(((n_bytes as int) % 256 + 4 + n_alignment_bytes) % 256 == (4 + n_alignment_bytes + n_bytes) % 256) by (nonlinear_arith);
    }
    let mut k: usize = 0;
    let ghost start = out@;
    let ghost head = head_record(name_bytes@, last);
    while k < 16
        invariant
            k <= 16,
            name_bytes@ == encode_utf8(item.name@),
            name_bytes@.len() <= 16,
            head == head_record(name_bytes@, last),
            out@ == start + head.take(k as int),
        decreases 16 - k,
    {
        let b = if k == 15 { last } else if k < name_bytes.len() { name_bytes[k] } else { 0u8 };
        out.push(b);
        k += 1;
        assert(out@ =~= start + head.take(k as int));
    }
    assert(head.take(16) =~= head);
    if n_bytes == 0 {
        return;
    }
    let code = write_be_i32(item.ty.code());
    push_all(out, &code);
    push_zeros(out, n_alignment_bytes);
    push_all(out, item.data.as_slice());
    assert(out@ =~= start + encode_entry(item@, offset as int));
}

/// The bytes of a header file holding `items`, in order: each entry starts
/// at a multiple of 16 bytes, with 15 bytes of NUL-padded name and one byte
/// of aligned length; an entry with data goes on with its big-endian type
/// code, zeros up to the alignment of its type, and its data.
pub fn encode_header(items: &[HeaderItem]) -> (out: Vec<u8>)
    requires
        forall|i: int| 0 <= i < items@.len() ==> encode_utf8(#[trigger] items@[i].name@).len() <= 16,
    ensures
        out@ == spec_encode_header(items_view(items@)),
{
    let mut out: Vec<u8> = Vec::new();
    let mut i: usize = 0;
    while i < items.len()
        invariant
            i <= items.len(),
            forall|j: int| 0 <= j < items@.len() ==> encode_utf8(#[trigger] items@[j].name@).len() <= 16,
            out@ == encode_from(items_view(items@).take(i as int), 0),
        decreases items.len() - i,
    {
        let ghost es = items_view(items@).take(i as int);
        let excess = out.len() % 16;
        if excess != 0 {
            push_zeros(&mut out, 16 - excess);
        }
        let ghost l = out@.len() as int;
        push_entry(&mut out, &items[i]);
        proof {
            lemma_encode_from_push(es, items[i as int]@, 0);
            assert(items_view(items@).take(i + 1) =~= es.push(items[i as int]@));
        }
        i += 1;
    }
    assert(items_view(items@).take(items.len() as int) =~= items_view(items@));
    out
}

/// An entry that the header format can carry: a name of at most 15 bytes
/// without NUL; data that are a whole number of values, whose aligned length
/// fits in a byte; and no more than one value of type `Int8` (longer ones
/// read back as text).
pub open spec fn entry_encodable(e: HeaderEntry) -> bool {
    &&& encode_utf8(e.name).len() <= 15
    &&& !encode_utf8(e.name).contains(0u8)
    &&& e.data.len() > 0 ==> {
        &&& e.data.len() % e.ty.spec_size() == 0
        &&& 4 + (if e.ty.spec_size() == 8 { 4int } else { 0int }) + e.data.len() <= 255
        &&& !(e.ty == Type::Int8 && e.data.len() > 1)
    }
}

/// An entry as the header gives it back once written: an entry without
/// data is written with no type, and reads back as binary.
pub open spec fn reparsed(e: HeaderEntry) -> HeaderEntry {
    if e.data.len() == 0 {
        HeaderEntry { ty: Type::Binary, ..e }
    } else {
        e
    }
}

/// An entry that the header format carries unchanged: one it can carry,
/// with no data only for the binary type.
pub open spec fn entry_round_trips(e: HeaderEntry) -> bool {
    &&& entry_encodable(e)
    &&& e.data.len() == 0 ==> e.ty == Type::Binary
}

proof fn lemma_name_len(rec: Seq<u8>, nb: Seq<u8>, last: u8, i: int)
    requires
        rec == head_record(nb, last),
        nb.len() <= 15,
        !nb.contains(0u8),
        0 <= i <= nb.len(),
    ensures
        name_len(rec, i) == nb.len(),
    decreases nb.len() - i,
{
    if i < nb.len() {
        assert(rec[i] == nb[i]);
        if rec[i] == 0 {
            assert(nb.contains(0u8));
        }
        lemma_name_len(rec, nb, last, i + 1);
    }
}

proof fn lemma_entry_name(rec: Seq<u8>, name: Seq<char>, last: u8)
    requires
        rec == head_record(encode_utf8(name), last),
        encode_utf8(name).len() <= 15,
        !encode_utf8(name).contains(0u8),
    ensures
        valid_utf8(rec.take(name_len(rec, 0))),
        decode_utf8(rec.take(name_len(rec, 0))) == name,
        rec[15] == last,
{
    let nb = encode_utf8(name);
    lemma_name_len(rec, nb, last, 0);
    assert(rec.take(name_len(rec, 0)) =~= nb);
    encode_utf8_valid_utf8(name);
    encode_utf8_decode_utf8(name);
}

proof fn lemma_code_round_trip(t: Type, b0: u8, b1: u8, b2: u8, b3: u8)
    requires
        seq![b0, b1, b2, b3] == u32_be_bytes(t.spec_code() as u32),
    ensures
        Type::spec_from_i32(be_u32(b0, b1, b2, b3) as i32) == Some(t),
{
    let code = t.spec_code();
    let bs = u32_be_bytes(code as u32);
    assert(b0 == bs[0] && b1 == bs[1] && b2 == bs[2] && b3 == bs[3]) by {
        assert(seq![b0, b1, b2, b3][0] == b0);
        assert(seq![b0, b1, b2, b3][1] == b1);
        assert(seq![b0, b1, b2, b3][2] == b2);
        assert(seq![b0, b1, b2, b3][3] == b3);
    }
    lemma_be_i32_round_trip(code);
}

proof fn lemma_aligned_pads(pos: int, a: int)
    requires
        pos % 16 == 0,
        a == 4 || a == 8,
    ensures
        pad_amount(pos + 20, a) == pad_amount(pos + 4, a),
        pad_amount(pos + 4, a) == if a == 8 { 4int } else { 0int },
{
}

#[verifier::rlimit(40)]
proof fn lemma_entry_body(b: Seq<u8>, e: HeaderEntry, pos: int)
    requires
        0 <= pos,
        pos % 16 == 0,
        e.data.len() > 0,
        pos + encode_entry(e, pos).len() <= b.len(),
        b.subrange(pos, pos + encode_entry(e, pos).len()) == encode_entry(e, pos),
        entry_encodable(e),
    ensures
        ({
            let q = pos + encode_entry(e, pos).len();
            let last = ((4 + data_pad(pos, e.ty) + e.data.len()) % 256) as u8;
            parse_body(b, pos + 16, pos + 16, last) == Ok::<(Type, Seq<u8>, int, int), MiriadFormatError>((e.ty, e.data, q, q))
        }),
{
    reveal(parse_body);
    let enc = encode_entry(e, pos);
    let nb = encode_utf8(e.name);
    let n = e.data.len();
    let a = max4(e.ty.spec_size() as int);
    let nab = data_pad(pos, e.ty);
    let last = ((4 + nab + n) % 256) as u8;
    let code = e.ty.spec_code();
    let w = b.subrange(pos, pos + enc.len());
    assert(enc == head_record(nb, last) + u32_be_bytes(code as u32) + zeros(nab) + e.data);
    assert(enc.len() == 20 + nab + n);
    assert(b.subrange(pos + 16, pos + 20) =~= u32_be_bytes(code as u32)) by {
        assert(b.subrange(pos + 16, pos + 20) =~= w.subrange(16, 20));
        assert(enc.subrange(16, 20) =~= u32_be_bytes(code as u32));
    }
    assert(seq![b[pos + 16], b[pos + 17], b[pos + 18], b[pos + 19]] =~= b.subrange(pos + 16, pos + 20));
    lemma_code_round_trip(e.ty, b[pos + 16], b[pos + 17], b[pos + 18], b[pos + 19]);
    lemma_aligned_pads(pos, a);
    let p3 = pos + 20 + nab;
    assert(b.subrange(p3, p3 + n) =~= e.data) by {
        assert(b.subrange(p3, p3 + n) =~= w.subrange(20 + nab, 20 + nab + n));
        assert(enc.subrange(20 + nab, 20 + nab + n) =~= e.data);
    }
    assert(last as int == 4 + nab + n);
    assert(align_read(b.len() as int, pos + 20, pos + 20, a) == Ok::<(int, int), MiriadFormatError>((p3, p3)));
}

proof fn lemma_parse_entry_encoded(b: Seq<u8>, e: HeaderEntry, pos: int)
    requires
        0 <= pos,
        pos % 16 == 0,
        pos + encode_entry(e, pos).len() <= b.len(),
        b.subrange(pos, pos + encode_entry(e, pos).len()) == encode_entry(e, pos),
        entry_encodable(e),
    ensures
        ({
            let q = pos + encode_entry(e, pos).len();
            parse_entry(b, pos, pos) == match align_read(b.len() as int, q, q, 16) {
                Ok((p, o)) => Ok::<(HeaderEntry, int, int), MiriadFormatError>((reparsed(e), p, o)),
                Err(x) => Err(x),
            }
        }),
{
    reveal(parse_entry);
    reveal(parse_body);
    let enc = encode_entry(e, pos);
    let nb = encode_utf8(e.name);
    let n = e.data.len();
    let nab = data_pad(pos, e.ty);
    let last: u8 = if n == 0 { 0u8 } else { ((4 + nab + n) % 256) as u8 };
    let rec = b.subrange(pos, pos + 16);
    assert(enc.subrange(0, 16) =~= head_record(nb, last));
    assert(rec =~= b.subrange(pos, pos + enc.len()).subrange(0, 16));
    lemma_entry_name(rec, e.name, last);
    if n == 0 {
        assert(e.data =~= Seq::<u8>::empty());
    } else {
        lemma_entry_body(b, e, pos);
    }
}

proof fn lemma_encode_from_skip_pad(es: Seq<HeaderEntry>, start: int)
    requires
        es.len() > 0,
    ensures
        encode_from(es, start) == zeros(pad_amount(start, 16)) + encode_from(es, start + pad_amount(start, 16)),
{
    let pad = pad_amount(start, 16);
    let e0 = encode_entry(es[0], start + pad);
    assert(pad_amount(start + pad, 16) == 0);
    assert(zeros(0) + e0 =~= e0);
    let first = zeros(pad) + e0;
    assert(start + first.len() == start + pad + (zeros(0) + e0).len());
    assert(encode_from(es, start) =~= zeros(pad) + encode_from(es, start + pad));
}

proof fn lemma_encode_from_first(es: Seq<HeaderEntry>, pos: int)
    requires
        es.len() > 0,
        pos % 16 == 0,
    ensures
        encode_from(es, pos) == encode_entry(es[0], pos) + encode_from(es.drop_first(), pos + encode_entry(es[0], pos).len()),
        encode_entry(es[0], pos).len() >= 16,
{
    let enc = encode_entry(es[0], pos);
    assert(pad_amount(pos, 16) == 0);
    assert(zeros(0) + enc =~= enc);
}

proof fn lemma_next_entry(b: Seq<u8>, rest: Seq<HeaderEntry>, q: int)
    requires
        0 <= q <= b.len(),
        rest.len() > 0,
        b.subrange(q, b.len() as int) == encode_from(rest, q),
    ensures
        ({
            let pad = pad_amount(q, 16);
            &&& align_read(b.len() as int, q, q, 16) == Ok::<(int, int), MiriadFormatError>((q + pad, q + pad))
            &&& (q + pad) % 16 == 0
            &&& q + pad <= b.len()
            &&& b.subrange(q + pad, b.len() as int) == encode_from(rest, q + pad)
        }),
{
    let pad = pad_amount(q, 16);
    lemma_encode_from_skip_pad(rest, q);
    lemma_encode_from_first(rest, q + pad);
    let tail = encode_from(rest, q + pad);
    assert(b.subrange(q, b.len() as int).len() == b.len() - q);
    assert(b.len() >= q + pad + 16);
    assert(b.subrange(q + pad, b.len() as int) =~= tail) by {
        assert(b.subrange(q + pad, b.len() as int) =~= b.subrange(q, b.len() as int).subrange(pad, b.len() - q));
        assert((zeros(pad) + tail).subrange(pad, pad + tail.len()) =~= tail);
    }
}

proof fn lemma_split_encoded(b: Seq<u8>, es: Seq<HeaderEntry>, pos: int)
    requires
        0 <= pos <= b.len(),
        pos % 16 == 0,
        es.len() > 0,
        b.subrange(pos, b.len() as int) == encode_from(es, pos),
    ensures
        ({
            let enc = encode_entry(es[0], pos);
            let q = pos + enc.len();
            &&& q <= b.len()
            &&& b.subrange(pos, q) == enc
            &&& b.subrange(q, b.len() as int) == encode_from(es.drop_first(), q)
        }),
{
    let enc = encode_entry(es[0], pos);
    let q = pos + enc.len();
    lemma_encode_from_first(es, pos);
    assert(b.subrange(pos, b.len() as int).len() == b.len() - pos);
    assert(b.subrange(pos, q) =~= b.subrange(pos, b.len() as int).subrange(0, enc.len() as int));
    assert(b.subrange(q, b.len() as int) =~= b.subrange(pos, b.len() as int).subrange(enc.len() as int, b.len() - pos));
}

proof fn lemma_parse_last(b: Seq<u8>, e: HeaderEntry, q: int)
    requires
        b.len() == q,
    ensures
        (match align_read(b.len() as int, q, q, 16) {
            Ok((p, o)) => Ok::<(HeaderEntry, int, int), MiriadFormatError>((e, p, o)),
            Err(x) => Err(x),
        }) matches Ok((e2, p, o)) && e2 == e && parse_header_from(b, p, o) == Ok::<Seq<HeaderEntry>, MiriadFormatError>(Seq::<HeaderEntry>::empty()),
{
}

#[verifier::rlimit(40)]
proof fn lemma_parse_encoded(b: Seq<u8>, es: Seq<HeaderEntry>, pos: int)
    requires
        0 <= pos <= b.len(),
        pos % 16 == 0,
        b.subrange(pos, b.len() as int) == encode_from(es, pos),
        forall|i: int| 0 <= i < es.len() ==> entry_encodable(#[trigger] es[i]),
    ensures
        parse_header_from(b, pos, pos) == Ok::<Seq<HeaderEntry>, MiriadFormatError>(es.map_values(|e: HeaderEntry| reparsed(e))),
    decreases es.len(),
{
    let out = es.map_values(|e: HeaderEntry| reparsed(e));
    if es.len() == 0 {
        assert(b.subrange(pos, b.len() as int).len() == 0);
        assert(b.len() == pos);
        assert(out =~= Seq::<HeaderEntry>::empty());
    } else {
        let e = es[0];
        let rest = es.drop_first();
        let rout = rest.map_values(|e: HeaderEntry| reparsed(e));
        let q = pos + encode_entry(e, pos).len();
        lemma_split_encoded(b, es, pos);
        lemma_encode_from_first(es, pos);
        lemma_parse_entry_encoded(b, e, pos);
        if rest.len() == 0 {
            assert(b.subrange(q, b.len() as int).len() == 0);
            lemma_parse_last(b, reparsed(e), q);
            assert(seq![reparsed(e)] + Seq::<HeaderEntry>::empty() =~= out);
            assert(parse_header_from(b, pos, pos) == Ok::<Seq<HeaderEntry>, MiriadFormatError>(seq![reparsed(e)] + Seq::<HeaderEntry>::empty()));
        } else {
            let pad = pad_amount(q, 16);
            lemma_next_entry(b, rest, q);
            assert forall|i: int| 0 <= i < rest.len() implies entry_encodable(#[trigger] rest[i]) by {
                assert(rest[i] == es[i + 1]);
            }
            lemma_parse_encoded(b, rest, q + pad);
            assert(pos + 16 <= b.len());
            assert(parse_entry(b, pos, pos) == Ok::<(HeaderEntry, int, int), MiriadFormatError>((reparsed(e), q + pad, q + pad)));
            assert(seq![reparsed(e)] + rout =~= out);
            assert(parse_header_from(b, pos, pos) == Ok::<Seq<HeaderEntry>, MiriadFormatError>(seq![reparsed(e)] + rout));
        }
    }
}

/// Writing entries into a header and parsing it gives the same entries
/// back, in order, for every list of entries that the format can carry.
pub proof fn law_header_round_trip(es: Seq<HeaderEntry>)
    requires
        forall|i: int| 0 <= i < es.len() ==> entry_round_trips(#[trigger] es[i]),
    ensures
        spec_parse_header(spec_encode_header(es)) == Ok::<Seq<HeaderEntry>, MiriadFormatError>(es),
{
    let b = spec_encode_header(es);
    assert(b.subrange(0, b.len() as int) =~= b);
    lemma_parse_encoded(b, es, 0);
    assert(es.map_values(|e: HeaderEntry| reparsed(e)) =~= es);
}

/// Writing entries that the format can carry into a header and parsing it
/// gives them back in order, each as `reparsed` says: unchanged, but for an
/// entry without data, which reads back as binary.
pub proof fn law_header_rewrite(es: Seq<HeaderEntry>)
    requires
        forall|i: int| 0 <= i < es.len() ==> entry_encodable(#[trigger] es[i]),
    ensures
        spec_parse_header(spec_encode_header(es)) == Ok::<Seq<HeaderEntry>, MiriadFormatError>(
            es.map_values(|e: HeaderEntry| reparsed(e)),
        ),
{
    let b = spec_encode_header(es);
    assert(b.subrange(0, b.len() as int) =~= b);
    lemma_parse_encoded(b, es, 0);
}


proof fn lemma_name_len_props(rec: Seq<u8>, i: int)
    requires
        rec.len() == 16,
        0 <= i <= 15,
    ensures
        i <= name_len(rec, i) <= 15,
        forall|j: int| i <= j < name_len(rec, i) ==> rec[j] != 0,
    decreases 15 - i,
{
    if i < 15 && rec[i] != 0 {
        lemma_name_len_props(rec, i + 1);
    }
}

proof fn lemma_parsed_entry_encodable(b: Seq<u8>, pos: int, offset: int)
    requires
        0 <= pos,
        pos + 16 <= b.len(),
    ensures
        parse_entry(b, pos, offset) matches Ok((e, _, _)) ==> entry_encodable(e),
{
    reveal(parse_entry);
    reveal(parse_body);
    let rec = b.subrange(pos, pos + 16);
    let nl = name_len(rec, 0);
    let name = rec.take(nl);
    lemma_name_len_props(rec, 0);
    if valid_utf8(name) {
        decode_utf8_encode_utf8(name);
        assert(encode_utf8(decode_utf8(name)) == name);
        if name.contains(0u8) {
            let j = choose|j: int| 0 <= j < name.len() && name[j] == 0u8;
            assert(rec[j] == 0);
        }
    }
}

proof fn lemma_parsed_from_encodable(b: Seq<u8>, pos: int, offset: int)
    ensures
        parse_header_from(b, pos, offset) matches Ok(es) ==> forall|i: int| 0 <= i < es.len() ==> entry_encodable(#[trigger] es[i]),
    decreases b.len() - pos,
{
    if 0 <= pos && pos < b.len() && b.len() - pos >= 16 {
        lemma_parsed_entry_encodable(b, pos, offset);
        match parse_entry(b, pos, offset) {
            Ok((e, p, o)) => {
                lemma_parse_entry_advances(b, pos, offset);
                lemma_parsed_from_encodable(b, p, o);
                match parse_header_from(b, p, o) {
                    Ok(rest) => {
                        let es = seq![e] + rest;
                        assert forall|i: int| 0 <= i < es.len() implies entry_encodable(#[trigger] es[i]) by {
                            if i > 0 {
                                assert(es[i] == rest[i - 1]);
                            }
                        }
                    },
                    Err(_) => {},
                }
            },
            Err(_) => {},
        }
    }
}

/// Every entry that a header gives can be written into a header again:
/// together with `law_header_rewrite`, a header that is read and written
/// back gives the same entries once more, an entry without data as binary.
pub proof fn law_parsed_entries_encodable(b: Seq<u8>)
    ensures
        spec_parse_header(b) matches Ok(es) ==> forall|i: int| 0 <= i < es.len() ==> entry_encodable(#[trigger] es[i]),
{
    lemma_parsed_from_encodable(b, 0, 0);
}

/// A small item set from `values` of a mapped type and written into the
/// header, among any other entries that the header can carry (every entry
/// read from a header is one, by `law_parsed_entries_encodable`), is read
/// back from the header with the type of the values and their encoding,
/// which decodes to the values; an item of any type but text holds as many
/// elements as the values make. The other entries come back as
/// `reparsed` says. This holds for names of at most 15 bytes without NUL,
/// for encodings of 1 to 64 bytes (a longer one cannot be set as a small
/// item), and except for several `Int8` elements, which the header reads
/// back as text.
pub proof fn law_small_item_round_trip<T: MiriadMappedType>(
    items: Seq<HeaderEntry>,
    k: int,
    values: Seq<<T as DeepView>::V>,
)
    requires
        0 <= k < items.len(),
        forall|i: int| 0 <= i < items.len() && i != k ==> entry_encodable(#[trigger] items[i]),
        T::encodable(values),
        items[k].ty == T::spec_type(),
        items[k].data == T::spec_encode(values),
        encode_utf8(items[k].name).len() <= 15,
        !encode_utf8(items[k].name).contains(0u8),
        0 < T::spec_encode(values).len() <= 64,
        !(T::spec_type() == Type::Int8 && T::spec_encode(values).len() > 1),
    ensures
        spec_parse_header(spec_encode_header(items)) matches Ok(es) && es == items.map_values(
            |e: HeaderEntry| reparsed(e),
        ) && es[k] == items[k] && {
            &&& es[k].ty == T::spec_type()
            &&& T::readable(es[k].data)
            &&& T::spec_decode(es[k].data) == values
            &&& T::spec_type() != Type::Text ==> (es[k].data.len() as int) / (T::spec_type().spec_size() as int)
                == T::spec_count(values)
        },
{
    let enc = T::spec_encode(values);
    let sz = T::spec_type().spec_size() as int;
    T::lemma_encoded_len(values);
    T::lemma_round_trip(values);
    let c = T::spec_count(values);
    assert(sz > 0);
    let n = enc.len() as int;
    assert(n % sz == 0 && n / sz == c) by (nonlinear_arith)
        requires
            n == c * sz,
            sz > 0,
    ;
    assert(entry_encodable(items[k]));
    law_header_rewrite(items);
}

} // verus!
