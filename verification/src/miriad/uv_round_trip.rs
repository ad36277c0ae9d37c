//! What the UV decoder reads back of a record that the UV encoder wrote.

use super::header::{pad_amount, zeros};
use super::visdata::{
    align_at, decode_entry, emit_eor, emit_var, lemma_decode_entry_advances, next_from, read_at, resize, var_wf,
    vars_wf, VarModel,
};
use super::{MiriadFormatError, Type};
use crate::bytes::{be_u32, u32_be_bytes, lemma_be_i32_round_trip};
use vstd::prelude::*;

verus! {

/// The size entry that writing `enc` to variable `ev` makes, if any: one
/// whenever the count of values changes.
pub open spec fn write_size(ev: VarModel, enc: Seq<u8>) -> Option<i32> {
    if enc.len() / ev.ty.spec_size() != ev.n_vals {
        Some(enc.len() as i32)
    } else {
        None
    }
}

/// The bytes that writing `enc` to variable `ev` at stream offset `off` makes.
pub open spec fn write_bytes(ev: VarModel, off: int, enc: Seq<u8>) -> Seq<u8> {
    emit_var(ev.number, off, write_size(ev, enc), ev.ty.spec_alignment() as int, enc)
}

/// A variable after `enc` is written to it.
pub open spec fn written(ev: VarModel, enc: Seq<u8>) -> VarModel {
    VarModel { n_vals: (enc.len() / ev.ty.spec_size()) as int, data: enc, ..ev }
}

/// The bytes of a record: each write `(k, enc)` of the encoded values
/// `enc` to variable `k`, in order, then the end of the record.
pub open spec fn record_bytes(evars: Seq<VarModel>, off: int, writes: Seq<(int, Seq<u8>)>) -> Seq<u8>
    decreases writes.len(),
{
    if writes.len() == 0 {
        emit_eor(off)
    } else {
        let k = writes[0].0;
        let enc = writes[0].1;
        let w = write_bytes(evars[k], off, enc);
        w + record_bytes(evars.update(k, written(evars[k], enc)), off + w.len(), writes.drop_first())
    }
}

/// The decoder's variables after reading the writes, in order.
pub open spec fn decoded(dvars: Seq<VarModel>, writes: Seq<(int, Seq<u8>)>) -> Seq<VarModel>
    decreases writes.len(),
{
    if writes.len() == 0 {
        dvars
    } else {
        let k = writes[0].0;
        let enc = writes[0].1;
        decoded(dvars.update(k, VarModel { just_updated: true, ..written(dvars[k], enc) }), writes.drop_first())
    }
}

/// A decoder's and an encoder's variables that agree in number, type and
/// count of values.
pub open spec fn in_step(dvars: Seq<VarModel>, evars: Seq<VarModel>) -> bool {
    &&& dvars.len() == evars.len()
    &&& forall|k: int|
        0 <= k < dvars.len() ==> (#[trigger] dvars[k]).ty == evars[k].ty && dvars[k].number == evars[k].number
            && dvars[k].n_vals == evars[k].n_vals
}

/// Writes of whole, non-empty arrays of values to existing variables.
pub open spec fn valid_writes(vars: Seq<VarModel>, writes: Seq<(int, Seq<u8>)>) -> bool {
    forall|i: int|
        0 <= i < writes.len() ==> 0 <= (#[trigger] writes[i]).0 < vars.len() && writes[i].1.len() > 0
            && writes[i].1.len() % vars[writes[i].0].ty.spec_size() == 0 && writes[i].1.len() <= i32::MAX
}

proof fn lemma_pad8(off: int)
    requires
        0 <= off,
    ensures
        0 <= pad_amount(off, 8) < 8,
        (off + pad_amount(off, 8)) % 8 == 0,
        pad_amount(off + pad_amount(off, 8), 8) == 0,
{
}

proof fn lemma_align_bounds(off: int, a: int)
    requires
        0 <= off,
        1 <= a <= 8,
    ensures
        0 <= pad_amount(off, a) < a,
{
}

/// The bytes of `w` at `i..j` are those of `b` at `off + i..off + j`.
proof fn lemma_sub(b: Seq<u8>, w: Seq<u8>, off: int, i: int, j: int)
    requires
        0 <= off,
        off + w.len() <= b.len(),
        b.subrange(off, off + w.len()) == w,
        0 <= i <= j <= w.len(),
    ensures
        b.subrange(off + i, off + j) == w.subrange(i, j),
{
    assert(b.subrange(off + i, off + j) =~= b.subrange(off, off + w.len()).subrange(i, j));
}

proof fn lemma_data_entry(dvs: Seq<VarModel>, b: Seq<u8>, k: int, enc: Seq<u8>, pd: int, al: int, pad2: int)
    requires
        0 <= k < dvs.len(),
        0 <= pd,
        dvs[k].number == k,
        dvs[k].data.len() == enc.len(),
        al == dvs[k].ty.spec_alignment() as int,
        1 <= al <= 8,
        pad2 == pad_amount(pd + 4, al),
        0 <= pad2 < al,
        enc.len() > 0,
        pd + 4 + pad2 + enc.len() <= b.len(),
        b.subrange(pd, pd + 4) == seq![k as u8, 0u8, 1u8, 0u8],
        b.subrange(pd + 4 + pad2, pd + 4 + pad2 + enc.len()) == enc,
    ensures
        decode_entry(dvs, b, pd) == Ok::<(Seq<VarModel>, int, bool), MiriadFormatError>((
            dvs.update(k, VarModel { data: enc, just_updated: true, ..dvs[k] }),
            pd + 4 + pad2 + enc.len(),
            false,
        )),
{
    let h = b.subrange(pd, pd + 4);
    assert(h[0] == k as u8 && h[2] == 1u8);
    assert((k as u8) as int == k);
    assert(align_at(b.len() as int, pd + 4, al) == Some(pd + 4 + pad2));
    assert(read_at(b, pd + 4 + pad2, enc.len() as int) == Some(enc));
}

/// One entry that is not the end of a record, followed by the alignment.
proof fn lemma_unfold_next(dvars: Seq<VarModel>, b: Seq<u8>, eff: int, p: int, dv2: Seq<VarModel>, q: int, r: int)
    requires
        vars_wf(dvars),
        decode_entry(dvars, b, p) == Ok::<(Seq<VarModel>, int, bool), MiriadFormatError>((dv2, q, false)),
        q < eff,
        align_at(b.len() as int, q, 8) == Some(r),
    ensures
        next_from(dvars, b, eff, p) == next_from(dv2, b, eff, r),
{
}

proof fn lemma_size_entry(dvars: Seq<VarModel>, b: Seq<u8>, k: int, p: int, n: int)
    requires
        vars_wf(dvars),
        0 <= k < dvars.len(),
        0 <= p,
        p + 8 <= b.len(),
        0 <= n <= i32::MAX,
        n % (dvars[k].ty.spec_size() as int) == 0,
        b.subrange(p, p + 8) == seq![k as u8, 0u8, 0u8, 0u8] + u32_be_bytes((n as i32) as u32),
    ensures
        decode_entry(dvars, b, p) == Ok::<(Seq<VarModel>, int, bool), MiriadFormatError>((
            dvars.update(k, VarModel {
                n_vals: n / (dvars[k].ty.spec_size() as int),
                data: resize(dvars[k].data, n),
                ..dvars[k]
            }),
            p + 8,
            false,
        )),
{
    let sh = seq![k as u8, 0u8, 0u8, 0u8] + u32_be_bytes((n as i32) as u32);
    let h = b.subrange(p, p + 4);
    assert(h =~= b.subrange(p, p + 8).subrange(0, 4));
    assert(h[0] == k as u8 && h[2] == 0u8);
    assert((k as u8) as int == k);
    let wd = b.subrange(p + 4, p + 8);
    assert(wd =~= b.subrange(p, p + 8).subrange(4, 8));
    assert(wd =~= u32_be_bytes((n as i32) as u32));
    lemma_be_i32_round_trip(n as i32);
    assert((be_u32(wd[0], wd[1], wd[2], wd[3]) as i32) as int == n);
}

/// The written variable as the decoder holds it.
pub open spec fn decoded_var(dv: VarModel, enc: Seq<u8>) -> VarModel {
    VarModel { just_updated: true, ..written(dv, enc) }
}

/// A data entry with a size entry before it.
proof fn lemma_sized_data(
    dvars: Seq<VarModel>,
    b: Seq<u8>,
    eff: int,
    k: int,
    enc: Seq<u8>,
    p: int,
    al: int,
    pad2: int,
    r: int,
)
    requires
        vars_wf(dvars),
        0 <= k < dvars.len(),
        dvars[k].number == k,
        0 <= p,
        p % 8 == 0,
        enc.len() > 0,
        enc.len() <= i32::MAX,
        enc.len() % dvars[k].ty.spec_size() == 0,
        b.subrange(p, p + 8) == seq![k as u8, 0u8, 0u8, 0u8] + u32_be_bytes((enc.len() as i32) as u32),
        b.subrange(p + 8, p + 12) == seq![k as u8, 0u8, 1u8, 0u8],
        al == dvars[k].ty.spec_alignment() as int,
        1 <= al <= 8,
        pad2 == pad_amount(p + 12, al),
        0 <= pad2 < al,
        p + 12 + pad2 + enc.len() <= b.len(),
        b.subrange(p + 12 + pad2, p + 12 + pad2 + enc.len()) == enc,
        p + 12 + pad2 + enc.len() < eff,
        align_at(b.len() as int, p + 12 + pad2 + enc.len(), 8) == Some(r),
    ensures
        next_from(dvars, b, eff, p) == next_from(dvars.update(k, decoded_var(dvars[k], enc)), b, eff, r),
        vars_wf(dvars.update(k, decoded_var(dvars[k], enc))),
{
    let n = enc.len() as int;
    let dv = dvars[k];
    let sz = dv.ty.spec_size() as int;
    let cnt = n / sz;
    lemma_size_entry(dvars, b, k, p, n);
    let dv1 = dvars.update(k, VarModel { n_vals: cnt, data: resize(dv.data, n), ..dv });
    lemma_decode_entry_advances(dvars, b, p);
    lemma_data_entry(dv1, b, k, enc, p + 8, al, pad2);
    let dv2 = dvars.update(k, decoded_var(dvars[k], enc));
    assert(dv1.update(k, VarModel { data: enc, just_updated: true, ..dv1[k] }) =~= dv2);
    assert(align_at(b.len() as int, p + 8, 8) == Some(p + 8));
    lemma_unfold_next(dvars, b, eff, p, dv1, p + 8, p + 8);
    lemma_unfold_next(dv1, b, eff, p + 8, dv2, p + 12 + pad2 + n, r);
    lemma_decode_entry_advances(dv1, b, p + 8);
}

/// A data entry alone, its variable already holding that many bytes.
proof fn lemma_unsized_data(
    dvars: Seq<VarModel>,
    b: Seq<u8>,
    eff: int,
    k: int,
    enc: Seq<u8>,
    p: int,
    al: int,
    pad2: int,
    r: int,
)
    requires
        vars_wf(dvars),
        0 <= k < dvars.len(),
        dvars[k].number == k,
        0 <= p,
        enc.len() > 0,
        dvars[k].data.len() == enc.len(),
        dvars[k].n_vals == enc.len() / dvars[k].ty.spec_size(),
        b.subrange(p, p + 4) == seq![k as u8, 0u8, 1u8, 0u8],
        al == dvars[k].ty.spec_alignment() as int,
        1 <= al <= 8,
        pad2 == pad_amount(p + 4, al),
        0 <= pad2 < al,
        p + 4 + pad2 + enc.len() <= b.len(),
        b.subrange(p + 4 + pad2, p + 4 + pad2 + enc.len()) == enc,
        p + 4 + pad2 + enc.len() < eff,
        align_at(b.len() as int, p + 4 + pad2 + enc.len(), 8) == Some(r),
    ensures
        next_from(dvars, b, eff, p) == next_from(dvars.update(k, decoded_var(dvars[k], enc)), b, eff, r),
        vars_wf(dvars.update(k, decoded_var(dvars[k], enc))),
{
    lemma_data_entry(dvars, b, k, enc, p, al, pad2);
    let dv2 = dvars.update(k, decoded_var(dvars[k], enc));
    assert(dvars.update(k, VarModel { data: enc, just_updated: true, ..dvars[k] }) =~= dv2);
    lemma_unfold_next(dvars, b, eff, p, dv2, p + 4 + pad2 + enc.len(), r);
    lemma_decode_entry_advances(dvars, b, p);
}

#[verifier::rlimit(40)]
#[verifier::spinoff_prover]
proof fn lemma_write_step(
    dvars: Seq<VarModel>,
    evars: Seq<VarModel>,
    k: int,
    enc: Seq<u8>,
    b: Seq<u8>,
    off: int,
    eff: int,
)
    requires
        vars_wf(dvars),
        in_step(dvars, evars),
        0 <= k < dvars.len(),
        enc.len() > 0,
        enc.len() % dvars[k].ty.spec_size() == 0,
        enc.len() <= i32::MAX,
        0 <= off,
        off + write_bytes(evars[k], off, enc).len() + pad_amount(off + write_bytes(evars[k], off, enc).len(), 8) + 4
            <= b.len(),
        b.subrange(off, off + write_bytes(evars[k], off, enc).len()) == write_bytes(evars[k], off, enc),
        eff >= off + write_bytes(evars[k], off, enc).len() + 4,
    ensures
        ({
            let q = off + write_bytes(evars[k], off, enc).len();
            let dv2 = dvars.update(k, VarModel { just_updated: true, ..written(dvars[k], enc) });
            &&& next_from(dvars, b, eff, off + pad_amount(off, 8)) == next_from(dv2, b, eff, q + pad_amount(q, 8))
            &&& vars_wf(dv2)
            &&& in_step(dv2, evars.update(k, written(evars[k], enc)))
        }),
{
    let ev = evars[k];
    let dv = dvars[k];
    let num = ev.number;
    let sz = dv.ty.spec_size() as int;
    let n = enc.len() as int;
    let cnt = n / sz;
    let w = write_bytes(ev, off, enc);
    let size = write_size(ev, enc);
    let pad = pad_amount(off, 8);
    let p = off + pad;
    lemma_pad8(off);
    assert(num == k);
    assert(sz >= 1);
    assert(cnt * sz == n) by (nonlinear_arith)
        requires
            sz >= 1,
            n % sz == 0,
            cnt == n / sz,
    ;
    let head = zeros(pad) + match size {
        Some(nb) => seq![num, 0u8, 0u8, 0u8] + u32_be_bytes(nb as u32),
        None => Seq::<u8>::empty(),
    };
    let hl = head.len() as int;
    let o_data = off + hl + 4;
    let al = ev.ty.spec_alignment() as int;
    assert(1 <= al <= 8);
    lemma_align_bounds(o_data, al);
    let pad2 = pad_amount(o_data, al);
    assert(w == head + seq![num, 0u8, 1u8, 0u8] + zeros(pad2) + enc);
    let q = off + w.len();
    assert(q == o_data + pad2 + n);
    let dv2 = dvars.update(k, decoded_var(dvars[k], enc));
    lemma_sub(b, w, off, hl, hl + 4);
    assert(w.subrange(hl, hl + 4) =~= seq![num, 0u8, 1u8, 0u8]);
    lemma_sub(b, w, off, hl + 4 + pad2, w.len() as int);
    assert(w.subrange(hl + 4 + pad2, w.len() as int) =~= enc);
    lemma_pad8(q);
    let r = q + pad_amount(q, 8);
    assert(align_at(b.len() as int, q, 8) == Some(r));
    match size {
        Some(nb) => {
            assert(nb == n);
            lemma_sub(b, w, off, pad, pad + 8);
            assert(w.subrange(pad, pad + 8) =~= seq![num, 0u8, 0u8, 0u8] + u32_be_bytes(nb as u32));
            assert(o_data == p + 12);
            lemma_sized_data(dvars, b, eff, k, enc, p, al, pad2, r);
        },
        None => {
            assert(o_data == p + 4);
            assert(var_wf(dv));
            assert(dv.n_vals == ev.n_vals && cnt == ev.n_vals);
            assert(dv.data.len() == n) by (nonlinear_arith)
                requires
                    dv.data.len() == dv.n_vals * sz || (dv.n_vals == -1 && dv.data.len() == 0),
                    dv.n_vals == cnt,
                    cnt * sz == n,
                    n > 0,
                    sz >= 1,
            ;
            lemma_unsized_data(dvars, b, eff, k, enc, p, al, pad2, r);
        },
    }
    assert(dv2 == dvars.update(k, VarModel { just_updated: true, ..written(dvars[k], enc) }));
    assert(in_step(dv2, evars.update(k, written(evars[k], enc)))) by {
        assert forall|j: int| 0 <= j < dv2.len() implies (#[trigger] dv2[j]).ty == evars.update(k, written(evars[k], enc))[j].ty
            && dv2[j].number == evars.update(k, written(evars[k], enc))[j].number
            && dv2[j].n_vals == evars.update(k, written(evars[k], enc))[j].n_vals by {
            if j != k {
                assert(dv2[j] == dvars[j]);
            }
        }
    }
}

proof fn lemma_record_len(evars: Seq<VarModel>, off: int, writes: Seq<(int, Seq<u8>)>)
    ensures
        record_bytes(evars, off, writes).len() >= pad_amount(off, 8) + 4,
    decreases writes.len(),
{
    if writes.len() > 0 {
        let k = writes[0].0;
        let enc = writes[0].1;
        let w = write_bytes(evars[k], off, enc);
        assert(w.len() >= pad_amount(off, 8) + 4);
    }
}

proof fn lemma_eor_step(dvars: Seq<VarModel>, b: Seq<u8>, off: int, eff: int)
    requires
        vars_wf(dvars),
        0 <= off,
        off + emit_eor(off).len() <= b.len(),
        b.subrange(off, off + emit_eor(off).len()) == emit_eor(off),
        eff >= off + emit_eor(off).len(),
        ({
            let end = off + emit_eor(off).len();
            eff > end ==> (b.len() == end || b.len() >= end + pad_amount(end, 8))
        }),
    ensures
        ({
            let end = off + emit_eor(off).len();
            next_from(dvars, b, eff, off + pad_amount(off, 8)) == if eff == end {
                (Ok::<bool, MiriadFormatError>(false), dvars, end)
            } else {
                (Ok::<bool, MiriadFormatError>(true), dvars, end + pad_amount(end, 8))
            }
        }),
{
    let e = emit_eor(off);
    let pad = pad_amount(off, 8);
    lemma_pad8(off);
    let p = off + pad;
    lemma_sub(b, e, off, pad, pad + 4);
    assert(e.subrange(pad, pad + 4) =~= seq![0u8, 0u8, 2u8, 0u8]);
    let h = b.subrange(p, p + 4);
    assert(h[2] == 2u8);
    assert(decode_entry(dvars, b, p) == Ok::<(Seq<VarModel>, int, bool), MiriadFormatError>((dvars, p + 4, true)));
}

/// A record that the encoder writes is read back whole by a decoder whose
/// variables are in step with the encoder's: each variable written holds
/// the bytes written to it (its last write, if several) and the matching
/// count of values, and is marked as just updated; the others are left as
/// they were. The decoder starts at the encoder's offset aligned to 8
/// bytes, as the end of the previous record leaves it; it ends at the end
/// of the record, reporting the end of the data when `vislen` puts it
/// there, and else aligned for the next record.
pub proof fn law_record_round_trip(
    dvars: Seq<VarModel>,
    evars: Seq<VarModel>,
    writes: Seq<(int, Seq<u8>)>,
    b: Seq<u8>,
    off: int,
    eff: int,
)
    requires
        vars_wf(dvars),
        in_step(dvars, evars),
        valid_writes(dvars, writes),
        0 <= off,
        off + record_bytes(evars, off, writes).len() <= b.len(),
        b.subrange(off, off + record_bytes(evars, off, writes).len()) == record_bytes(evars, off, writes),
        eff >= off + record_bytes(evars, off, writes).len(),
        ({
            let end = off + record_bytes(evars, off, writes).len();
            eff > end ==> (b.len() == end || b.len() >= end + pad_amount(end, 8))
        }),
    ensures
        ({
            let end = off + record_bytes(evars, off, writes).len();
            next_from(dvars, b, eff, off + pad_amount(off, 8)) == if eff == end {
                (Ok::<bool, MiriadFormatError>(false), decoded(dvars, writes), end)
            } else {
                (Ok::<bool, MiriadFormatError>(true), decoded(dvars, writes), end + pad_amount(end, 8))
            }
        }),
    decreases writes.len(),
{
    if writes.len() == 0 {
        lemma_eor_step(dvars, b, off, eff);
    } else {
        let k = writes[0].0;
        let enc = writes[0].1;
        let rest = writes.drop_first();
        let w = write_bytes(evars[k], off, enc);
        let q = off + w.len();
        let ev2 = evars.update(k, written(evars[k], enc));
        let r2 = record_bytes(ev2, q, rest);
        let whole = record_bytes(evars, off, writes);
        assert(whole == w + r2);
        lemma_record_len(ev2, q, rest);
        lemma_sub(b, whole, off, 0, w.len() as int);
        assert(whole.subrange(0, w.len() as int) =~= w);
        lemma_sub(b, whole, off, w.len() as int, whole.len() as int);
        assert(whole.subrange(w.len() as int, whole.len() as int) =~= r2);
        assert(writes[0] == (k, enc));
        lemma_write_step(dvars, evars, k, enc, b, off, eff);
        let dv2 = dvars.update(k, VarModel { just_updated: true, ..written(dvars[k], enc) });
        assert(valid_writes(dv2, rest)) by {
            assert forall|i: int| 0 <= i < rest.len() implies 0 <= (#[trigger] rest[i]).0 < dv2.len()
                && rest[i].1.len() > 0 && rest[i].1.len() % dv2[rest[i].0].ty.spec_size() == 0
                && rest[i].1.len() <= i32::MAX by {
                assert(rest[i] == writes[i + 1]);
            }
        }
        law_record_round_trip(dv2, ev2, rest, b, q, eff);
    }
}

} // verus!
