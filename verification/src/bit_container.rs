//! A container that packs `bool` bits into bytes.
//!
//! Every eighth bit completes a byte. Closing the container completes the
//! pending byte with zero bits; a container that holds nothing at all gets
//! one zero byte.

use vstd::prelude::*;
use crate::bits::{
    append_slice, byte_bit, container_text, lemma_or_bit, lemma_pack_of_low_bits, lemma_pack_zero_tail,
    lemma_zero_byte, low_bits, pack_byte, write_bytes, zero_bits,
};

verus! {

/// The `u8` bit that a `bool` stands for.
pub open spec fn bool_bit(b: bool) -> u8 {
    if b {
        1
    } else {
        0
    }
}

/// What a [`BitContainer`] holds: the completed bytes, and the bits written
/// into the byte that is still being filled.
pub ghost struct BitContainerView {
    pub bytes: Seq<u8>,
    pub pending: Seq<u8>,
}

impl BitContainerView {
    /// No byte and no pending bit.
    pub open spec fn empty() -> BitContainerView {
        BitContainerView { bytes: Seq::empty(), pending: Seq::empty() }
    }

    /// The pending bits closed into a byte, filled up with zero bits. Where
    /// no bit is pending nothing is added, but for a container without any
    /// byte: it gets one zero byte.
    pub open spec fn closed(self) -> BitContainerView {
        if self.pending.len() > 0 || self.bytes.len() == 0 {
            BitContainerView {
                bytes: self.bytes.push(pack_byte(self.pending)),
                pending: Seq::empty(),
            }
        } else {
            BitContainerView { bytes: self.bytes, pending: Seq::empty() }
        }
    }

    /// One more bit: the eighth pending bit closes the byte.
    pub open spec fn push_bit(self, bit: bool) -> BitContainerView {
        let grown = BitContainerView { bytes: self.bytes, pending: self.pending.push(bool_bit(bit)) };
        if grown.pending.len() >= 8 {
            grown.closed()
        } else {
            grown
        }
    }

    /// The bits of `bits` pushed one after the other.
    pub open spec fn push_bits(self, bits: Seq<bool>) -> BitContainerView
        decreases bits.len(),
    {
        if bits.len() == 0 {
            self
        } else {
            self.push_bits(bits.drop_last()).push_bit(bits.last())
        }
    }
}

/// The `bool`s that `u8` elements stand for: anything but zero is a set
/// bit.
pub open spec fn bits_to_bools(value: Seq<u8>) -> Seq<bool> {
    Seq::new(value.len(), |i: int| value[i] != 0)
}

/// The bits of a byte sequence as `bool`s, eight per byte, least significant
/// first.
pub open spec fn bytes_to_bools(bytes: Seq<u8>) -> Seq<bool> {
    Seq::new(8 * bytes.len(), |i: int| byte_bit(bytes[i / 8], i % 8) == 1)
}

/// Packs `bool` bits into bytes, the first bit of a byte lowest.
pub struct BitContainer {
    byte_buffer: Vec<u8>,
    current_byte: u8,
    cutter: u8,
}

impl View for BitContainer {
    type V = BitContainerView;

    closed spec fn view(&self) -> BitContainerView {
        BitContainerView {
            bytes: self.byte_buffer@,
            pending: low_bits(self.current_byte, self.cutter as int),
        }
    }
}

impl BitContainer {
    /// Fewer than eight bits are pending, and the pending byte holds nothing else.
    pub closed spec fn wf(&self) -> bool {
        &&& self.cutter < 8
        &&& forall|i: int| self.cutter <= i < 8 ==> byte_bit(self.current_byte, i) == 0
    }

    /// An empty container.
    pub fn new() -> (r: Self)
        ensures
            r.wf(),
            r@ == BitContainerView::empty(),
    {
        let r = Self { byte_buffer: Vec::new(), current_byte: 0, cutter: 0 };
        proof {
            lemma_zero_byte();
            assert(r@.pending =~= Seq::empty());
        }
        r
    }

    /// A container that holds the bits of `value`: each element that is not
    /// zero is a set bit.
    pub fn from_bits(value: Vec<u8>) -> (container: Self)
        ensures
            container.wf(),
            container@ == BitContainerView::empty().push_bits(bits_to_bools(value@)),
    {
        let mut container = Self::new();
        let n = value.len();
        let mut i: usize = 0;
        while i < n
            invariant
                i <= n,
                n == value.len(),
                container.wf(),
                container@ == BitContainerView::empty().push_bits(
                    bits_to_bools(value@).take(i as int),
                ),
            decreases n - i,
        {
            proof {
                assert(bits_to_bools(value@).take(i + 1).drop_last() =~= bits_to_bools(
                    value@,
                ).take(i as int));
            }
            container.add_bit(value[i] != 0);
            i += 1;
        }
        proof {
            assert(bits_to_bools(value@).take(n as int) =~= bits_to_bools(value@));
        }
        container
    }

    /// A container that holds the bits of `value`.
    pub fn from_bools(value: Vec<bool>) -> (container: Self)
        ensures
            container.wf(),
            container@ == BitContainerView::empty().push_bits(value@),
    {
        let mut container = Self::new();
        container.add_code(&value);
        container
    }

    /// The completed bytes as text: the bits of each byte, the lowest first,
    /// in two groups of four; a single `0` where there is no byte.
    pub fn to_string(&self) -> (repr: String)
        ensures
            repr@ == container_text(self@.bytes),
    {
        write_bytes(self.byte_buffer.as_slice())
    }

    /// Pushes the bits of `code`, one after the other.
    pub fn add_code(&mut self, code: &Vec<bool>)
        requires
            old(self).wf(),
        ensures
            final(self).wf(),
            final(self)@ == old(self)@.push_bits(code@),
    {
        let n = code.len();
        let mut i: usize = 0;
        while i < n
            invariant
                i <= n,
                n == code.len(),
                self.wf(),
                self@ == old(self)@.push_bits(code@.subrange(0, i as int)),
            decreases n - i,
        {
            proof {
                assert(code@.subrange(0, i + 1).drop_last() =~= code@.subrange(0, i as int));
            }
            self.add_bit(code[i]);
            i += 1;
        }
        proof {
            assert(code@.subrange(0, n as int) =~= code@);
        }
    }

    /// Pushes one bit. The eighth pending bit closes the byte.
    pub fn add_bit(&mut self, bit: bool)
        requires
            old(self).wf(),
        ensures
            final(self).wf(),
            final(self)@ == old(self)@.push_bit(bit),
    {
        let ghost before = *self;
        let k = self.cutter;
        if bit {
            self.current_byte |= 1u8 << k;
        }
        self.cutter += 1;
        proof {
            let cb = before.current_byte;
            let nb = self.current_byte;
            assert forall|i: int| 0 <= i < 8 implies byte_bit(nb, i) == (if i == k {
                bool_bit(bit)
            } else {
                byte_bit(cb, i)
            }) by {
                if bit {
                    lemma_or_bit(cb, k, i as u8);
                }
            }
            assert(low_bits(nb, k + 1) =~= before@.pending.push(bool_bit(bit)));
        }
        if self.cutter > 7 {
            self.flush()
        }
    }

    /// Closes the pending byte, padded with zero bits, appends every byte to
    /// `file` and leaves the container empty.
    pub fn flush_to_file(&mut self, file: &mut Vec<u8>)
        requires
            old(self).wf(),
        ensures
            final(self).wf(),
            final(self)@ == BitContainerView::empty(),
            final(file)@ == old(file)@ + old(self)@.closed().bytes,
    {
        self.flush();

        append_slice(file, self.byte_buffer.as_slice());

        self.byte_buffer.clear();
        self.current_byte = 0;
        self.cutter = 0;
        proof {
            lemma_zero_byte();
            assert(self@.pending =~= Seq::empty());
        }
    }

    /// Closes the pending byte, padded with zero bits.
    pub fn finish(&mut self)
        requires
            old(self).wf(),
        ensures
            final(self).wf(),
            final(self)@ == old(self)@.closed(),
    {
        self.flush()
    }

    /// The completed bytes.
    pub fn get_all_bytes(&self) -> (r: &[u8])
        ensures
            r@ == self@.bytes,
    {
        self.byte_buffer.as_slice()
    }

    /// The number of completed bytes.
    pub fn bytes_reserved(&self) -> (r: usize)
        ensures
            r == self@.bytes.len(),
    {
        self.byte_buffer.len()
    }

    /// The first `count` completed bytes, or all of them where there are fewer.
    pub fn get_bytes(&self, count: usize) -> (r: &[u8])
        ensures
            r@ == (if count > self@.bytes.len() {
                self@.bytes
            } else {
                self@.bytes.subrange(0, count as int)
            }),
    {
        if count > self.bytes_reserved() {
            self.get_all_bytes()
        } else {
            let all = self.byte_buffer.as_slice();
            &all[0..count]
        }
    }

    /// The bits of the completed bytes. Pending bits are not among them.
    pub fn get_bits(&self) -> (bits: Vec<bool>)
        ensures
            bits@ == bytes_to_bools(self@.bytes),
    {
        let mut bits: Vec<bool> = Vec::new();
        let n = self.byte_buffer.len();
        let mut j: usize = 0;
        while j < n
            invariant
                j <= n,
                n == self.byte_buffer.len(),
                bits@ == bytes_to_bools(self.byte_buffer@.subrange(0, j as int)),
            decreases n - j,
        {
            let byte = self.byte_buffer[j];
            let ghost before = bits@;
            let mut i: u8 = 0;
            while i < 8
                invariant
                    i <= 8,
                    bits@ == before + Seq::new(i as nat, |t: int| byte_bit(byte, t) == 1),
                decreases 8 - i,
            {
                bits.push((byte & (1u8 << i)) != 0);
                i += 1;
            }
            proof {
                assert(bits@ =~= bytes_to_bools(self.byte_buffer@.subrange(0, j + 1)));
            }
            j += 1;
        }
        proof {
            assert(self.byte_buffer@.subrange(0, n as int) =~= self.byte_buffer@);
        }
        bits
    }

    /// Closes the pending byte. Before the call up to eight bits may be pending.
    fn flush(&mut self)
        requires
            old(self).cutter <= 8,
            forall|i: int| old(self).cutter <= i < 8 ==> byte_bit(old(self).current_byte, i) == 0,
        ensures
            final(self).wf(),
            final(self)@ == old(self)@.closed(),
    {
        proof {
            lemma_pack_of_low_bits(self.current_byte);
            assert(low_bits(self.current_byte, 8) =~= low_bits(
                self.current_byte,
                self.cutter as int,
            ) + zero_bits((8 - self.cutter) as nat));
            lemma_pack_zero_tail(self@.pending, (8 - self.cutter) as nat);
        }
        if self.cutter != 0 || self.byte_buffer.len() == 0 {
            self.byte_buffer.push(self.current_byte);
        }
        self.current_byte = 0;
        self.cutter = 0;
        proof {
            lemma_zero_byte();
            assert(self@.pending =~= Seq::empty());
        }
    }
}

} // verus!
