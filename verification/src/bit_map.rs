//! A container that packs single bits into bytes.

use vstd::prelude::*;
use crate::bits::{
    append_slice, bit_value, byte_bit, bytes_to_bits, is_bits, lemma_or_bit, lemma_pack_of_low_bits,
    lemma_pack_zero_tail, lemma_zero_byte, low_bits, normalize, pack_byte,
    pack_full, pack_padded, pack_rest, unpack_bytes, write_bytes, zero_bits, container_text,
};

verus! {

/// What a [`BitMap`] holds: the completed bytes, and the bits written into the
/// byte that is still being filled (fewer than eight).
pub ghost struct BitMapView {
    pub bytes: Seq<u8>,
    pub pending: Seq<u8>,
}

impl BitMapView {
    /// No byte and no pending bit.
    pub open spec fn empty() -> BitMapView {
        BitMapView { bytes: Seq::empty(), pending: Seq::empty() }
    }

    /// The completed bytes are gone; the pending bits stay.
    pub open spec fn drained(self) -> BitMapView {
        BitMapView { bytes: Seq::empty(), pending: self.pending }
    }

    /// One more bit: it completes the pending byte when that already holds seven.
    pub open spec fn push_bit(self, bit: u8) -> BitMapView {
        let grown = self.pending.push(bit_value(bit));
        if grown.len() >= 8 {
            BitMapView { bytes: self.bytes.push(pack_byte(grown)), pending: Seq::empty() }
        } else {
            BitMapView { bytes: self.bytes, pending: grown }
        }
    }

    /// The bits of `bits` pushed one after the other.
    pub open spec fn push_bits(self, bits: Seq<u8>) -> BitMapView
        decreases bits.len(),
    {
        if bits.len() == 0 {
            self
        } else {
            self.push_bits(bits.drop_last()).push_bit(bits.last())
        }
    }

    /// The pending byte completed with zero bits, if any bit is pending.
    pub open spec fn flushed(self) -> BitMapView {
        if self.pending.len() == 0 {
            self
        } else {
            BitMapView { bytes: self.bytes.push(pack_byte(self.pending)), pending: Seq::empty() }
        }
    }
}

/// The bits that `bool`s stand for.
pub open spec fn bools_to_bits(value: Seq<bool>) -> Seq<u8> {
    Seq::new(value.len(), |i: int| if value[i] { 1u8 } else { 0u8 })
}

/// The bits that the characters of a code stand for: `'1'` for a set bit.
pub open spec fn code_bits(code: Seq<char>) -> Seq<u8> {
    Seq::new(code.len(), |i: int| if code[i] == '1' { 1u8 } else { 0u8 })
}

/// Packs bits into bytes, the first bit of a byte lowest. A bit is a `u8`:
/// 1 is a set bit, anything else a clear one.
pub struct BitMap {
    byte_buffer: Vec<u8>,
    current_byte: u8,
    current_bit: u8,
}

impl View for BitMap {
    type V = BitMapView;

    closed spec fn view(&self) -> BitMapView {
        BitMapView {
            bytes: self.byte_buffer@,
            pending: low_bits(self.current_byte, self.current_bit as int),
        }
    }
}

impl BitMap {
    /// Fewer than eight bits are pending, and the pending byte holds nothing else.
    pub closed spec fn wf(&self) -> bool {
        &&& self.current_bit < 8
        &&& forall|i: int| self.current_bit <= i < 8 ==> byte_bit(self.current_byte, i) == 0
    }

    /// A well-formed container has fewer than eight pending bits.
    pub proof fn lemma_wf(&self)
        requires
            self.wf(),
        ensures
            self@.pending.len() < 8,
            is_bits(self@.pending),
    {
    }

    /// An empty container.
    pub fn new() -> (r: Self)
        ensures
            r.wf(),
            r@ == BitMapView::empty(),
    {
        let r = Self { byte_buffer: Vec::new(), current_byte: 0, current_bit: 0 };
        proof {
            lemma_zero_byte();
            assert(r@.pending =~= Seq::empty());
        }
        r
    }

    /// A container that holds the bits of `value`.
    pub fn from_bits(value: Vec<u8>) -> (container: Self)
        ensures
            container.wf(),
            container@ == BitMapView::empty().push_bits(value@),
    {
        let mut container = Self::new();
        container.add_bit_sequence(&value);
        container
    }

    /// A container that holds the bits of `value`.
    pub fn from_bools(value: Vec<bool>) -> (container: Self)
        ensures
            container.wf(),
            container@ == BitMapView::empty().push_bits(bools_to_bits(value@)),
    {
        let mut container = Self::new();
        let n = value.len();
        let mut i: usize = 0;
        while i < n
            invariant
                i <= n,
                n == value.len(),
                container.wf(),
                container@ == BitMapView::empty().push_bits(bools_to_bits(value@).take(i as int)),
            decreases n - i,
        {
            proof {
                assert(bools_to_bits(value@).take(i + 1).drop_last() =~= bools_to_bits(
                    value@,
                ).take(i as int));
            }
            container.add_bit(if value[i] { 1 } else { 0 });
            i += 1;
        }
        proof {
            assert(bools_to_bits(value@).take(n as int) =~= bools_to_bits(value@));
        }
        container
    }

    /// The completed bytes as text: the bits of each byte, the lowest first,
    /// in two groups of four; a single `0` where there is no byte.
    pub fn to_string(&self) -> (repr: String)
        ensures
            repr@ == container_text(self@.bytes),
    {
        write_bytes(self.byte_buffer.as_slice())
    }

    /// Appends a whole byte to the completed bytes, past the bit packing.
    pub fn add_byte(&mut self, byte: u8)
        ensures
            old(self).wf() ==> final(self).wf(),
            final(self)@.bytes == old(self)@.bytes.push(byte),
            final(self)@.pending == old(self)@.pending,
    {
        self.byte_buffer.push(byte);
    }

    /// Appends whole bytes to the completed bytes, past the bit packing.
    pub fn add_bytes(&mut self, bytes: &[u8])
        ensures
            old(self).wf() ==> final(self).wf(),
            final(self)@.bytes == old(self)@.bytes + bytes@,
            final(self)@.pending == old(self)@.pending,
    {
        let n = bytes.len();
        let mut i: usize = 0;
        while i < n
            invariant
                i <= n,
                n == bytes.len(),
                old(self).wf() ==> self.wf(),
                self@.bytes == old(self)@.bytes + bytes@.subrange(0, i as int),
                self@.pending == old(self)@.pending,
            decreases n - i,
        {
            self.add_byte(bytes[i]);
            i += 1;
        }
    }

    /// Pushes one bit. The eighth pending bit completes the byte.
    pub fn add_bit(&mut self, bit: u8)
        requires
            old(self).wf(),
        ensures
            final(self).wf(),
            final(self)@ == old(self)@.push_bit(bit),
    {
        let ghost before = *self;
        let k = self.current_bit;
        if bit == 1 {
            self.current_byte |= 1u8 << k;
        }
        self.current_bit += 1;
        proof {
            let cb = before.current_byte;
            let nb = self.current_byte;
            assert forall|i: int| 0 <= i < 8 implies byte_bit(nb, i) == (if i == k {
                bit_value(bit)
            } else {
                byte_bit(cb, i)
            }) by {
                if bit == 1 {
                    lemma_or_bit(cb, k, i as u8);
                }
            }
            assert(low_bits(nb, k + 1) =~= before@.pending.push(bit_value(bit)));
        }
        // when the byte is filled
        if self.current_bit > 7 {
            proof {
                lemma_pack_of_low_bits(self.current_byte);
            }
            self.flush();
        }
    }

    /// Pushes the bits of `code`, one after the other.
    pub fn add_bit_sequence(&mut self, code: &Vec<u8>)
        requires
            old(self).wf(),
        ensures
            final(self).wf(),
            final(self)@ == old(self)@.push_bits(code@),
    {
        let n = code.len();
        let mut i: usize = 0;
        while i < n
            invariant
                i <= n,
                n == code.len(),
                self.wf(),
                self@ == old(self)@.push_bits(code@.subrange(0, i as int)),
            decreases n - i,
        {
            proof {
                assert(code@.subrange(0, i + 1).drop_last() =~= code@.subrange(0, i as int));
            }
            self.add_bit(code[i]);
            i += 1;
        }
        proof {
            assert(code@.subrange(0, n as int) =~= code@);
        }
    }

    /// Pushes a set bit for each `'1'` of `code` and a clear bit for any other
    /// character.
    pub fn add_code(&mut self, code: &str)
        requires
            old(self).wf(),
        ensures
            final(self).wf(),
            final(self)@ == old(self)@.push_bits(code_bits(code@)),
    {
        let n = code.unicode_len();
        let mut i: usize = 0;
        while i < n
            invariant
                i <= n,
                n == code@.len(),
                self.wf(),
                self@ == old(self)@.push_bits(code_bits(code@).subrange(0, i as int)),
            decreases n - i,
        {
            proof {
                assert(code_bits(code@).subrange(0, i + 1).drop_last() =~= code_bits(
                    code@,
                ).subrange(0, i as int));
            }
            let ch = code.get_char(i);
            self.add_bit(if ch == '1' { 1 } else { 0 });
            i += 1;
        }
        proof {
            assert(code_bits(code@).subrange(0, n as int) =~= code_bits(code@));
        }
    }

    /// Completes the pending byte with zero bits, appends every byte to `file`
    /// and leaves the container empty.
    pub fn flush_to_file(&mut self, file: &mut Vec<u8>)
        requires
            old(self).wf(),
        ensures
            final(self).wf(),
            final(self)@ == BitMapView::empty(),
            final(file)@ == old(file)@ + old(self)@.flushed().bytes,
    {
        proof {
            if self.current_bit != 0 {
                lemma_pack_of_low_bits(self.current_byte);
                assert(low_bits(self.current_byte, 8) =~= low_bits(
                    self.current_byte,
                    self.current_bit as int,
                ) + zero_bits((8 - self.current_bit) as nat));
                lemma_pack_zero_tail(self@.pending, (8 - self.current_bit) as nat);
            }
        }
        self.flush();
        append_slice(file, self.byte_buffer.as_slice());
        self.clear();
    }

    /// Appends the completed bytes to `file` and forgets them. The pending
    /// bits stay, so that the next bits continue the same byte.
    pub fn flush_filled_to_file(&mut self, file: &mut Vec<u8>)
        ensures
            old(self).wf() ==> final(self).wf(),
            final(self)@.bytes == Seq::<u8>::empty(),
            final(self)@.pending == old(self)@.pending,
            final(file)@ == old(file)@ + old(self)@.bytes,
    {
        append_slice(file, self.byte_buffer.as_slice());
        self.byte_buffer.clear();
    }

    /// The completed bytes.
    pub fn get_all_bytes(&self) -> (r: &[u8])
        ensures
            r@ == self@.bytes,
    {
        self.byte_buffer.as_slice()
    }

    /// The number of completed bytes.
    pub fn bytes_reserved(&self) -> (r: usize)
        ensures
            r == self@.bytes.len(),
    {
        self.byte_buffer.len()
    }

    /// The first `count` completed bytes, or all of them where there are fewer.
    pub fn get_bytes(&self, count: usize) -> (r: &[u8])
        ensures
            r@ == (if count > self@.bytes.len() {
                self@.bytes
            } else {
                self@.bytes.subrange(0, count as int)
            }),
    {
        if count > self.bytes_reserved() {
            self.get_all_bytes()
        } else {
            let all = self.byte_buffer.as_slice();
            &all[0..count]
        }
    }

    /// The bits of the completed bytes. Pending bits are not among them.
    pub fn get_all_bits(&self) -> (bits: Vec<u8>)
        ensures
            bits@ == bytes_to_bits(self@.bytes),
    {
        unpack_bytes(self.byte_buffer.as_slice())
    }

    /// The first `count` bits of the completed bytes, or all of them where
    /// there are fewer.
    pub fn get_bits(&self, count: usize) -> (bits: Vec<u8>)
        ensures
            bits@ == (if count > 8 * self@.bytes.len() {
                bytes_to_bits(self@.bytes)
            } else {
                bytes_to_bits(self@.bytes).subrange(0, count as int)
            }),
    {
        let mut bits = unpack_bytes(self.byte_buffer.as_slice());
        bits.truncate(count);
        bits
    }

    /// Forgets the completed bytes and the pending bits.
    pub fn clear(&mut self)
        ensures
            final(self).wf(),
            final(self)@ == BitMapView::empty(),
    {
        self.byte_buffer.clear();
        self.current_byte = 0;
        self.current_bit = 0;
        proof {
            lemma_zero_byte();
            assert(self@.pending =~= Seq::empty());
        }
    }

    /// Completes the pending byte with zero bits, if any bit is pending. Before
    /// the call up to eight bits may be pending.
    fn flush(&mut self)
        requires
            old(self).current_bit <= 8,
        ensures
            final(self).wf(),
            final(self).byte_buffer@ == (if old(self).current_bit != 0 {
                old(self).byte_buffer@.push(old(self).current_byte)
            } else {
                old(self).byte_buffer@
            }),
            final(self)@.pending == Seq::<u8>::empty(),
    {
        if self.current_bit != 0 {
            self.byte_buffer.push(self.current_byte);
        }
        self.current_byte = 0;
        self.current_bit = 0;
        proof {
            lemma_zero_byte();
            assert(self@.pending =~= Seq::empty());
        }
    }
}

/// Pushing bits packs them: the bytes are those of the complete groups of
/// eight among the pending bits and the new ones, and the rest is pending.
pub proof fn lemma_push_bits(v: BitMapView, bits: Seq<u8>)
    requires
        v.pending.len() < 8,
    ensures
        v.push_bits(bits) == (BitMapView {
            bytes: v.bytes + pack_full(v.pending + normalize(bits)),
            pending: pack_rest(v.pending + normalize(bits)),
        }),
    decreases bits.len(),
{
    let all = v.pending + normalize(bits);
    if bits.len() == 0 {
        assert(pack_full(all) =~= Seq::<u8>::empty());
        assert(pack_rest(all) =~= v.pending);
        assert(v.bytes + pack_full(all) =~= v.bytes);
    } else {
        let prev = v.pending + normalize(bits.drop_last());
        lemma_push_bits(v, bits.drop_last());
        let grown = pack_rest(prev).push(bit_value(bits.last()));
        assert(all =~= prev.push(bit_value(bits.last())));
        if grown.len() >= 8 {
            assert(all.subrange(8 * (all.len() / 8 - 1), 8 * (all.len() / 8 - 1) + 8) =~= grown);
            assert(pack_full(all) =~= pack_full(prev).push(pack_byte(grown))) by {
                assert forall|j: int| 0 <= j < pack_full(prev).len() implies pack_full(all)[j]
                    == pack_full(prev)[j] by {
                    assert(all.subrange(8 * j, 8 * j + 8) =~= prev.subrange(8 * j, 8 * j + 8));
                }
            }
            assert(pack_rest(all) =~= Seq::<u8>::empty());
            assert(v.bytes + pack_full(all) =~= (v.bytes + pack_full(prev)).push(pack_byte(grown)));
        } else {
            assert(pack_full(all) =~= pack_full(prev)) by {
                assert forall|j: int| 0 <= j < pack_full(prev).len() implies pack_full(all)[j]
                    == pack_full(prev)[j] by {
                    assert(all.subrange(8 * j, 8 * j + 8) =~= prev.subrange(8 * j, 8 * j + 8));
                }
            }
            assert(pack_rest(all) =~= grown);
        }
    }
}

/// Pushing bits in two parts is pushing them at once.
pub proof fn lemma_push_bits_concat(v: BitMapView, a: Seq<u8>, b: Seq<u8>)
    ensures
        v.push_bits(a + b) == v.push_bits(a).push_bits(b),
    decreases b.len(),
{
    if b.len() == 0 {
        assert(a + b =~= a);
    } else {
        assert((a + b).drop_last() =~= a + b.drop_last());
        lemma_push_bits_concat(v, a, b.drop_last());
    }
}

/// Bits pushed into an empty container and flushed are the bits packed, the
/// last byte padded with zero bits.
pub proof fn lemma_push_bits_flushed(bits: Seq<u8>)
    ensures
        BitMapView::empty().push_bits(bits).flushed().bytes == pack_padded(normalize(bits)),
        BitMapView::empty().push_bits(bits).pending.len() < 8,
{
    lemma_push_bits(BitMapView::empty(), bits);
    assert(Seq::<u8>::empty() + normalize(bits) =~= normalize(bits));
    assert(Seq::<u8>::empty() + pack_full(normalize(bits)) =~= pack_full(normalize(bits)));
}

/// What is pushed behind pending bits does not depend on the bytes that were
/// completed before.
pub proof fn lemma_drained_push(w: BitMapView, bits: Seq<u8>)
    requires
        w.pending.len() < 8,
    ensures
        w.push_bits(bits).bytes == w.bytes + w.drained().push_bits(bits).bytes,
        w.push_bits(bits).pending == w.drained().push_bits(bits).pending,
        w.push_bits(bits).pending.len() < 8,
        w.push_bits(bits).flushed().bytes == w.bytes + w.drained().push_bits(bits).flushed().bytes,
{
    lemma_push_bits(w, bits);
    lemma_push_bits(w.drained(), bits);
    let full = pack_full(w.pending + normalize(bits));
    assert(Seq::<u8>::empty() + full =~= full);
    let rest = w.push_bits(bits).pending;
    if rest.len() > 0 {
        assert((w.bytes + full).push(pack_byte(rest)) =~= w.bytes + full.push(pack_byte(rest)));
    }
}

} // verus!
