//! MIRIAD mask-format bit streams, such as UV data flags.
//!
//! A mask is stored as big-endian 32-bit words, each carrying 31 flag bits
//! in its bits 0 to 30 (bit 31 is always clear). The encoder and decoder
//! here work on the words; whoever drives them reads or writes the words.

use vstd::prelude::*;

verus! {

/// Bit `i` of `w`.
pub open spec fn bit(w: u32, i: int) -> bool {
    (w >> (i as u32)) & 1u32 == 1u32
}

/// The 31 flag bits that a mask word carries.
pub open spec fn word_bits(w: u32) -> Seq<bool> {
    Seq::new(31, |i: int| bit(w, i))
}

/// The flag bits that a sequence of mask words carries, in order.
pub open spec fn stream_bits(ws: Seq<u32>) -> Seq<bool>
    decreases ws.len(),
{
    if ws.len() == 0 {
        Seq::empty()
    } else {
        stream_bits(ws.drop_last()) + word_bits(ws.last())
    }
}

/// The number of words needed to supply `n` more bits when `left` bits of
/// the current word remain.
pub open spec fn spec_words_needed(left: int, n: int) -> int {
    if n <= left {
        0
    } else {
        (n - left + 30) / 31
    }
}

proof fn lemma_bit_test(w: u32, i: u32)
    requires
        i < 31,
    ensures
        (w & (1u32 << i) != 0u32) == bit(w, i as int),
{
    assert((w & (1u32 << i) != 0u32) == ((w >> i) & 1u32 == 1u32)) by (bit_vector)
        requires
            i < 31,
    ;
}

proof fn lemma_stream_bits_push(ws: Seq<u32>, w: u32)
    ensures
        stream_bits(ws.push(w)) == stream_bits(ws) + word_bits(w),
{
    assert(ws.push(w).drop_last() =~= ws);
}

proof fn lemma_stream_bits_len(ws: Seq<u32>)
    ensures
        stream_bits(ws).len() == 31 * ws.len(),
    decreases ws.len(),
{
    if ws.len() > 0 {
        lemma_stream_bits_len(ws.drop_last());
    }
}

proof fn lemma_stream_bits_first(ws: Seq<u32>)
    requires
        ws.len() > 0,
    ensures
        stream_bits(ws) == word_bits(ws[0]) + stream_bits(ws.drop_first()),
    decreases ws.len(),
{
    if ws.len() > 1 {
        lemma_stream_bits_first(ws.drop_last());
        assert(ws.drop_last().drop_first() =~= ws.drop_first().drop_last());
        assert(ws.drop_last()[0] == ws[0]);
    } else {
        assert(ws.drop_last() =~= Seq::<u32>::empty());
        assert(ws.drop_first() =~= Seq::<u32>::empty());
        assert(stream_bits(Seq::<u32>::empty()) =~= Seq::<bool>::empty());
    }
}

/// A decoder for a mask stream.
#[derive(Debug)]
pub struct MaskDecoder {
    current_val: u32,
    bits_left_in_current: usize,
}

impl MaskDecoder {
    pub closed spec fn wf(&self) -> bool {
        self.bits_left_in_current <= 31
    }

    /// The bits of the current word that are not yet handed out.
    pub closed spec fn remaining(&self) -> Seq<bool> {
        word_bits(self.current_val).subrange(31 - self.bits_left_in_current, 31)
    }

    /// A decoder at the start of a mask stream.
    pub fn new() -> (d: MaskDecoder)
        ensures
            d.wf(),
            d.remaining() == Seq::<bool>::empty(),
    {
        let d = MaskDecoder { current_val: 0, bits_left_in_current: 0 };
        assert(d.remaining() =~= Seq::<bool>::empty());
        d
    }

    /// How many words of the stream `expand` needs to hand out `n` more bits.
    pub fn words_needed(&self, n: usize) -> (k: usize)
        requires
            self.wf(),
        ensures
            k == spec_words_needed(self.remaining().len() as int, n as int),
    {
        if n <= self.bits_left_in_current {
            0
        } else {
            let x = n - self.bits_left_in_current;
            assert((x - 1) / 31 + 1 == (x + 30) / 31) by (nonlinear_arith)
                requires
                    x >= 1,
            ;
            (x - 1) / 31 + 1
        }
    }

    /// Hand out the next `n` bits of the stream, given the next words of
    /// the stream, as many as `words_needed(n)` says.
    pub fn expand(&mut self, n: usize, words: &[u32]) -> (out: Vec<bool>)
        requires
            old(self).wf(),
            words.len() == spec_words_needed(old(self).remaining().len() as int, n as int),
        ensures
            final(self).wf(),
            out@ == (old(self).remaining() + stream_bits(words@)).take(n as int),
            final(self).remaining() == (old(self).remaining() + stream_bits(words@)).skip(n as int),
    {
        let ghost avail = self.remaining() + stream_bits(words@);
        let ghost init = self.bits_left_in_current as int;
        proof {
            lemma_stream_bits_len(words@);
        }
        let mut out: Vec<bool> = Vec::new();
        let mut k: usize = 0;
        assert(words@.skip(0) =~= words@);
        assert(avail =~= out@ + self.remaining() + stream_bits(words@.skip(0)));
        while out.len() < n
            invariant
                self.wf(),
                k <= words.len(),
                out.len() <= n,
                words.len() == spec_words_needed(init, n as int),
                avail == out@ + self.remaining() + stream_bits(words@.skip(k as int)),
                out.len() + self.bits_left_in_current == init + 31 * k,
                k > 0 ==> init + 31 * (k - 1) < n,
                init <= 31,
            decreases n - out.len(),
        {
            if self.bits_left_in_current == 0 {
                proof {
                    assert(k < words.len()) by (nonlinear_arith)
                        requires
                            out.len() == init + 31 * k,
                            out.len() < n,
                            words.len() == spec_words_needed(init, n as int),
                            init <= 31,
                    ;
                    lemma_stream_bits_first(words@.skip(k as int));
                    assert(words@.skip(k as int).drop_first() =~= words@.skip(k + 1));
                    assert(self.remaining() =~= Seq::<bool>::empty());
                    assert(word_bits(words@[k as int]).subrange(0, 31) =~= word_bits(words@[k as int]));
                }
                self.current_val = words[k];
                self.bits_left_in_current = 31;
                k += 1;
                proof {
                    assert(avail =~= out@ + self.remaining() + stream_bits(words@.skip(k as int)));
                }
            }
            let i = 31 - self.bits_left_in_current as u32;
            let b = self.current_val & (1u32 << i) != 0;
            proof {
                lemma_bit_test(self.current_val, i);
                let rem = self.remaining();
                assert(rem[0] == b);
                assert(rem.drop_first() =~= word_bits(self.current_val).subrange(31 - (self.bits_left_in_current - 1), 31));
            }
            let ghost old_rem = self.remaining();
            out.push(b);
            self.bits_left_in_current = self.bits_left_in_current - 1;
            proof {
                assert(out@ + self.remaining() =~= out@.drop_last() + old_rem);
            }
        }
        proof {
            assert(k == words.len()) by (nonlinear_arith)
                requires
                    out.len() == n,
                    out.len() + self.bits_left_in_current == init + 31 * k,
                    k > 0 ==> init + 31 * (k - 1) < n,
                    words.len() == spec_words_needed(init, n as int),
                    k <= words.len(),
                    self.bits_left_in_current <= 31,
                    init <= 31,
            ;
            assert(words@.skip(k as int) =~= Seq::<u32>::empty());
            assert(stream_bits(Seq::<u32>::empty()) =~= Seq::<bool>::empty());
            assert(avail.take(n as int) =~= out@);
            assert(avail.skip(n as int) =~= self.remaining());
        }
        out
    }
}

proof fn lemma_set_bit(cur: u32, i: u32)
    requires
        i < 31,
        cur >> i == 0u32,
    ensures
        forall|j: u32| j < 31 && j != i ==> #[trigger] bit(cur | (1u32 << i), j as int) == bit(cur, j as int),
        bit(cur | (1u32 << i), i as int),
        !bit(cur, i as int),
        (cur | (1u32 << i)) >> ((i + 1) as u32) == 0u32,
        cur >> ((i + 1) as u32) == 0u32,
{
    assert(forall|j: u32| j < 31 && j != i ==> ((((cur | (1u32 << i)) >> j) & 1u32 == 1u32) == ((cur >> j) & 1u32 == 1u32))) by (bit_vector)
        requires
            i < 31,
    ;
    assert((((cur | (1u32 << i)) >> i) & 1u32) == 1u32) by (bit_vector)
        requires
            i < 31,
    ;
    assert(((cur >> i) & 1u32) != 1u32) by (bit_vector)
        requires
            i < 31,
            cur >> i == 0u32,
    ;
    assert((cur | (1u32 << i)) >> ((i + 1) as u32) == 0u32) by (bit_vector)
        requires
            i < 31,
            cur >> i == 0u32,
    ;
    assert(cur >> ((i + 1) as u32) == 0u32) by (bit_vector)
        requires
            i < 31,
            cur >> i == 0u32,
    ;
}

proof fn lemma_zero_bits_above(cur: u32, i: u32)
    requires
        i <= 31,
        cur >> i == 0u32,
    ensures
        forall|j: u32| i <= j < 31 ==> !#[trigger] bit(cur, j as int),
{
    assert(forall|j: u32| i <= j < 31 ==> ((cur >> j) & 1u32) != 1u32) by (bit_vector)
        requires
            i <= 31,
            cur >> i == 0u32,
    ;
}

/// An encoder for a mask stream.
#[derive(Debug)]
pub struct MaskEncoder {
    current_val: u32,
    bits_left_in_current: usize,
    closed: bool,
}

impl MaskEncoder {
    pub closed spec fn wf(&self) -> bool {
        &&& self.bits_left_in_current <= 31
        &&& self.current_val >> ((31 - self.bits_left_in_current) as u32) == 0u32
    }

    /// The bits of the current word that are filled and not yet written.
    pub closed spec fn pending(&self) -> Seq<bool> {
        word_bits(self.current_val).take(31 - self.bits_left_in_current)
    }

    /// Whether the encoder has been closed.
    pub closed spec fn is_closed(&self) -> bool {
        self.closed
    }

    /// An encoder at the start of a mask stream. Its first word is a full
    /// word of clear bits.
    pub fn new() -> (e: MaskEncoder)
        ensures
            e.wf(),
            !e.is_closed(),
            e.pending() == Seq::new(31, |i: int| false),
    {
        let e = MaskEncoder { current_val: 0, bits_left_in_current: 0, closed: false };
        assert(0u32 >> 31u32 == 0u32) by (bit_vector);
        assert(0u32 >> 0u32 == 0u32) by (bit_vector);
        proof {
            lemma_zero_bits_above(0u32, 0u32);
            assert forall|i: int| 0 <= i < 31 implies !bit(0u32, i) by {
                assert(!bit(0u32, (i as u32) as int));
            }
        }
        assert(e.pending() =~= Seq::new(31, |i: int| false));
        e
    }

    /// Append flag bits to the stream; returns the words that are now full,
    /// to be written in order.
    pub fn append_mask(&mut self, data: &[bool]) -> (words: Vec<u32>)
        requires
            old(self).wf(),
            !old(self).is_closed(),
        ensures
            final(self).wf(),
            !final(self).is_closed(),
            stream_bits(words@) + final(self).pending() == old(self).pending() + data@,
    {
        let ghost start = self.pending();
        let mut words: Vec<u32> = Vec::new();
        let mut ofs: usize = 0;
        proof {
            assert(stream_bits(words@) =~= Seq::<bool>::empty());
            assert(data@.take(0) =~= Seq::<bool>::empty());
            assert(stream_bits(words@) + self.pending() =~= start + data@.take(0));
        }
        while ofs < data.len()
            invariant
                self.wf(),
                !self.closed,
                ofs <= data.len(),
                stream_bits(words@) + self.pending() == start + data@.take(ofs as int),
            decreases data.len() - ofs,
        {
            if self.bits_left_in_current == 0 {
                proof {
                    lemma_stream_bits_push(words@, self.current_val);
                    assert(self.pending() =~= word_bits(self.current_val));
                }
                words.push(self.current_val);
                self.current_val = 0;
                self.bits_left_in_current = 31;
                proof {
                    assert(0u32 >> 0u32 == 0u32) by (bit_vector);
                    assert(self.pending() =~= Seq::<bool>::empty());
                    assert(stream_bits(words@) + self.pending() =~= start + data@.take(ofs as int));
                }
            }
            let i = (31 - self.bits_left_in_current) as u32;
            let ghost before = self.pending();
            let ghost cur0 = self.current_val;
            assert(stream_bits(words@) + before == start + data@.take(ofs as int));
            proof {
                lemma_set_bit(cur0, i);
            }
            if data[ofs] {
                self.current_val = self.current_val | (1u32 << i);
            }
            self.bits_left_in_current = self.bits_left_in_current - 1;
            proof {
                assert(self.pending() =~= before.push(data@[ofs as int])) by {
                    assert forall|j: int| 0 <= j < i implies #[trigger] self.pending()[j] == before[j] by {
                        assert(bit(self.current_val, (j as u32) as int) == bit(cur0, (j as u32) as int));
                    }
                }
                assert(data@.take(ofs + 1) =~= data@.take(ofs as int).push(data@[ofs as int]));
                assert(stream_bits(words@) + before.push(data@[ofs as int]) =~= (stream_bits(words@) + before).push(data@[ofs as int]));
                assert(stream_bits(words@) + self.pending() =~= start + data@.take(ofs + 1));
            }
            ofs += 1;
            if self.bits_left_in_current == 0 {
                proof {
                    lemma_stream_bits_push(words@, self.current_val);
                    assert(self.pending() =~= word_bits(self.current_val));
                }
                words.push(self.current_val);
                self.current_val = 0;
                self.bits_left_in_current = 31;
                proof {
                    assert(0u32 >> 0u32 == 0u32) by (bit_vector);
                    assert(self.pending() =~= Seq::<bool>::empty());
                    assert(stream_bits(words@) + self.pending() =~= start + data@.take(ofs as int));
                }
            }
        }
        assert(data@.take(data.len() as int) =~= data@);
        words
    }

    /// Close the stream: returns the last, partly filled word to write, if
    /// there is one. Closing twice does nothing more.
    pub fn close(&mut self) -> (w: Option<u32>)
        requires
            old(self).wf(),
        ensures
            final(self).wf(),
            final(self).is_closed(),
            final(self).pending() == old(self).pending(),
            (!old(self).is_closed() && old(self).pending().len() != 0) <==> w is Some,
            w matches Some(x) ==> word_bits(x) == old(self).pending() + Seq::new((31 - old(self).pending().len()) as nat, |i: int| false),
    {
        if self.closed {
            return None;
        }
        self.closed = true;
        if self.bits_left_in_current != 31 {
            proof {
                let f = (31 - self.bits_left_in_current) as u32;
                lemma_zero_bits_above(self.current_val, f);
                assert(word_bits(self.current_val) =~= self.pending() + Seq::new((31 - self.pending().len()) as nat, |i: int| false)) by {
                    assert forall|j: int| f <= j < 31 implies !#[trigger] bit(self.current_val, j) by {
                        assert(!bit(self.current_val, (j as u32) as int));
                    }
                }
            }
            Some(self.current_val)
        } else {
            None
        }
    }
}

/// What an encoder writes, a decoder reads back: if a stream of words `ws`
/// and pending bits `p` together stand for the bits `e`, and the closing
/// word `last` holds `p` followed by clear bits, then the words `ws` and
/// `last` carry `e` as their first bits.
pub proof fn law_mask_round_trip(ws: Seq<u32>, p: Seq<bool>, last: u32, e: Seq<bool>)
    requires
        stream_bits(ws) + p == e,
        p.len() <= 31,
        word_bits(last) == p + Seq::new((31 - p.len()) as nat, |i: int| false),
    ensures
        stream_bits(ws.push(last)).take(e.len() as int) == e,
{
    lemma_stream_bits_push(ws, last);
    assert(stream_bits(ws.push(last)).take(e.len() as int) =~= e);
}

} // verus!
