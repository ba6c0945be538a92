//! Bits as `u8` values and their packing into bytes.
//!
//! Within a byte, bit 0 is the least significant bit and the first one that
//! was written. A `u8` stands for a set bit only when it is exactly 1.

use vstd::prelude::*;

verus! {

/// The bit that a `u8` stands for: 1 for the value 1, 0 for anything else.
pub open spec fn bit_value(b: u8) -> u8 {
    if b == 1 {
        1
    } else {
        0
    }
}

/// Every element is 0 or 1.
pub open spec fn is_bits(s: Seq<u8>) -> bool {
    forall|i: int| 0 <= i < s.len() ==> (#[trigger] s[i]) <= 1
}

/// Each element replaced by the bit it stands for.
pub open spec fn normalize(s: Seq<u8>) -> Seq<u8> {
    Seq::new(s.len(), |i: int| bit_value(s[i]))
}

/// Bit `i` of `byte`, counted from the least significant one.
pub open spec fn byte_bit(byte: u8, i: int) -> u8 {
    if byte & (1u8 << (i as u8)) != 0 {
        1
    } else {
        0
    }
}

/// The first `n` bits of `byte`.
pub open spec fn low_bits(byte: u8, n: int) -> Seq<u8> {
    Seq::new(n as nat, |i: int| byte_bit(byte, i))
}

/// The byte whose bit `i` is set exactly when `bits[i]` stands for a set bit.
/// Meant for at most eight bits.
pub open spec fn pack_byte(bits: Seq<u8>) -> u8
    decreases bits.len(),
{
    if bits.len() == 0 {
        0
    } else if bits.last() == 1 {
        pack_byte(bits.drop_last()) | (1u8 << ((bits.len() - 1) as u8))
    } else {
        pack_byte(bits.drop_last())
    }
}

/// The bits of a byte sequence, eight per byte, least significant first.
pub open spec fn bytes_to_bits(bytes: Seq<u8>) -> Seq<u8> {
    Seq::new(8 * bytes.len(), |i: int| byte_bit(bytes[i / 8], i % 8))
}

/// The bytes made of the complete groups of eight bits of `bits`.
pub open spec fn pack_full(bits: Seq<u8>) -> Seq<u8> {
    Seq::new(bits.len() / 8, |j: int| pack_byte(bits.subrange(8 * j, 8 * j + 8)))
}

/// The bits of `bits` that follow its last complete group of eight.
pub open spec fn pack_rest(bits: Seq<u8>) -> Seq<u8> {
    bits.subrange(8 * (bits.len() / 8) as int, bits.len() as int)
}

/// `bits` packed into bytes, the last byte padded with zero bits.
pub open spec fn pack_padded(bits: Seq<u8>) -> Seq<u8> {
    if bits.len() % 8 == 0 {
        pack_full(bits)
    } else {
        pack_full(bits).push(pack_byte(pack_rest(bits)))
    }
}

/// Appends a copy of `other` to `v`.
pub fn append_slice(v: &mut Vec<u8>, other: &[u8])
    ensures
        final(v)@ == old(v)@ + other@,
{
    let n = other.len();
    let mut i: usize = 0;
    while i < n
        invariant
            i <= n,
            n == other.len(),
            v@ == old(v)@ + other@.subrange(0, i as int),
        decreases n - i,
    {
        v.push(other[i]);
        i += 1;
    }
}

/// A vector that holds a copy of `s`.
pub fn copy_slice(s: &[u8]) -> (r: Vec<u8>)
    ensures
        r@ == s@,
{
    let mut r: Vec<u8> = Vec::new();
    append_slice(&mut r, s);
    r
}

/// The bits of `bytes`, eight per byte, least significant first.
pub fn unpack_bytes(bytes: &[u8]) -> (bits: Vec<u8>)
    ensures
        bits@ == bytes_to_bits(bytes@),
{
    let mut bits: Vec<u8> = Vec::new();
    let n = bytes.len();
    let mut j: usize = 0;
    while j < n
        invariant
            j <= n,
            n == bytes.len(),
            bits@ == bytes_to_bits(bytes@.subrange(0, j as int)),
        decreases n - j,
    {
        let byte = bytes[j];
        let ghost before = bits@;
        let mut i: u8 = 0;
        while i < 8
            invariant
                i <= 8,
                bits@ == before + low_bits(byte, i as int),
            decreases 8 - i,
        {
            bits.push(if byte & (1u8 << i) == 0 { 0 } else { 1 });
            i += 1;
        }
        proof {
            assert(bits@ =~= bytes_to_bits(bytes@.subrange(0, j + 1)));
        }
        j += 1;
    }
    proof {
        assert(bytes@.subrange(0, n as int) =~= bytes@);
    }
    bits
}

/// Setting the bit `j` of a byte sets that bit and changes no other.
pub proof fn lemma_or_bit(x: u8, j: u8, i: u8)
    requires
        j < 8,
        i < 8,
    ensures
        ((x | (1u8 << j)) & (1u8 << i) != 0) == ((x & (1u8 << i) != 0) || i == j),
{
    assert(((x | (1u8 << j)) & (1u8 << i) != 0) == ((x & (1u8 << i) != 0) || i == j))
        by (bit_vector)
        requires
            j < 8,
            i < 8,
    ;
}

/// Unpacking a packed byte gives back the bits, followed by zeros.
pub proof fn lemma_byte_bit_of_pack(bits: Seq<u8>, i: int)
    requires
        bits.len() <= 8,
        0 <= i < 8,
    ensures
        byte_bit(pack_byte(bits), i) == (if i < bits.len() {
            bit_value(bits[i])
        } else {
            0
        }),
    decreases bits.len(),
{
    if bits.len() == 0 {
        let k = i as u8;
        assert(0u8 & (1u8 << k) == 0) by (bit_vector);
    } else {
        let rest = bits.drop_last();
        lemma_byte_bit_of_pack(rest, i);
        if bits.last() == 1 {
            lemma_or_bit(pack_byte(rest), (bits.len() - 1) as u8, i as u8);
        }
    }
}

/// Two bytes with the same eight bits are equal.
pub proof fn lemma_byte_ext(x: u8, y: u8)
    requires
        forall|i: int| 0 <= i < 8 ==> byte_bit(x, i) == byte_bit(y, i),
    ensures
        x == y,
{
    assert(byte_bit(x, 0) == byte_bit(y, 0));
    assert(byte_bit(x, 1) == byte_bit(y, 1));
    assert(byte_bit(x, 2) == byte_bit(y, 2));
    assert(byte_bit(x, 3) == byte_bit(y, 3));
    assert(byte_bit(x, 4) == byte_bit(y, 4));
    assert(byte_bit(x, 5) == byte_bit(y, 5));
    assert(byte_bit(x, 6) == byte_bit(y, 6));
    assert(byte_bit(x, 7) == byte_bit(y, 7));
    assert(x == y) by (bit_vector)
        requires
            (x & (1u8 << 0u8) != 0) == (y & (1u8 << 0u8) != 0),
            (x & (1u8 << 1u8) != 0) == (y & (1u8 << 1u8) != 0),
            (x & (1u8 << 2u8) != 0) == (y & (1u8 << 2u8) != 0),
            (x & (1u8 << 3u8) != 0) == (y & (1u8 << 3u8) != 0),
            (x & (1u8 << 4u8) != 0) == (y & (1u8 << 4u8) != 0),
            (x & (1u8 << 5u8) != 0) == (y & (1u8 << 5u8) != 0),
            (x & (1u8 << 6u8) != 0) == (y & (1u8 << 6u8) != 0),
            (x & (1u8 << 7u8) != 0) == (y & (1u8 << 7u8) != 0),
    ;
}

/// Packing the eight bits of a byte gives the byte back.
pub proof fn lemma_pack_of_low_bits(byte: u8)
    ensures
        pack_byte(low_bits(byte, 8)) == byte,
{
    let packed = pack_byte(low_bits(byte, 8));
    assert forall|i: int| 0 <= i < 8 implies byte_bit(packed, i) == byte_bit(byte, i) by {
        lemma_byte_bit_of_pack(low_bits(byte, 8), i);
    }
    lemma_byte_ext(packed, byte);
}

/// No bit of the zero byte is set.
pub proof fn lemma_zero_byte()
    ensures
        forall|i: int| 0 <= i < 8 ==> byte_bit(0u8, i) == 0,
{
    assert forall|i: int| 0 <= i < 8 implies byte_bit(0u8, i) == 0 by {
        let k = i as u8;
        assert(0u8 & (1u8 << k) == 0) by (bit_vector);
    }
}

/// `k` zero bits.
pub open spec fn zero_bits(k: nat) -> Seq<u8> {
    Seq::new(k, |i: int| 0u8)
}

/// The number of zero bits that fill `len` bits up to whole bytes.
pub open spec fn padding(len: nat) -> nat {
    ((8 - len % 8) % 8) as nat
}

/// Zero bits behind up to eight bits do not change the byte they pack to.
pub proof fn lemma_pack_zero_tail(bits: Seq<u8>, zeros: nat)
    requires
        bits.len() + zeros <= 8,
    ensures
        pack_byte(bits + zero_bits(zeros)) == pack_byte(bits),
    decreases zeros,
{
    if zeros == 0 {
        assert(bits + zero_bits(zeros) =~= bits);
    } else {
        let shorter = bits + zero_bits((zeros - 1) as nat);
        let longer = bits + zero_bits(zeros);
        assert(longer.drop_last() =~= shorter);
        lemma_pack_zero_tail(bits, (zeros - 1) as nat);
    }
}

/// Unpacking packed bits gives back what the bits stand for, followed by the
/// zero bits that fill the last byte.
pub proof fn lemma_unpack_packed(bits: Seq<u8>)
    ensures
        bytes_to_bits(pack_padded(bits)) == normalize(bits) + zero_bits(padding(bits.len())),
{
    let packed = pack_padded(bits);
    let unpacked = bytes_to_bits(packed);
    let expected = normalize(bits) + zero_bits(padding(bits.len()));
    let full = bits.len() / 8;
    assert(unpacked.len() == expected.len());
    assert forall|i: int| 0 <= i < unpacked.len() implies unpacked[i] == expected[i] by {
        let j = i / 8;
        let t = i % 8;
        if j < full {
            let group = bits.subrange(8 * j, 8 * j + 8);
            assert(packed[j] == pack_byte(group));
            lemma_byte_bit_of_pack(group, t);
            assert(group[t] == bits[i]);
        } else {
            assert(packed[j] == pack_byte(pack_rest(bits)));
            lemma_byte_bit_of_pack(pack_rest(bits), t);
            if i < bits.len() {
                assert(pack_rest(bits)[t] == bits[i]);
            }
        }
    }
    assert(unpacked =~= expected);
}

/// The bits of bytes that follow each other follow each other.
pub proof fn lemma_bytes_to_bits_concat(a: Seq<u8>, b: Seq<u8>)
    ensures
        bytes_to_bits(a + b) == bytes_to_bits(a) + bytes_to_bits(b),
{
    let whole = bytes_to_bits(a + b);
    let parts = bytes_to_bits(a) + bytes_to_bits(b);
    assert(whole.len() == parts.len());
    assert forall|i: int| 0 <= i < whole.len() implies whole[i] == parts[i] by {
        if i >= 8 * a.len() {
            assert((i - 8 * a.len()) / 8 == i / 8 - a.len());
            assert((i - 8 * a.len()) % 8 == i % 8);
        }
    }
    assert(whole =~= parts);
}

/// How a bit is written.
pub open spec fn bit_char(bit: u8) -> char {
    if bit == 1 {
        '1'
    } else {
        '0'
    }
}

/// How a byte is written: its bits, the lowest first, in two groups of four
/// with an apostrophe between them and a space behind them.
pub open spec fn byte_text(byte: u8) -> Seq<char> {
    seq![
        bit_char(byte_bit(byte, 0)),
        bit_char(byte_bit(byte, 1)),
        bit_char(byte_bit(byte, 2)),
        bit_char(byte_bit(byte, 3)),
        '\'',
        bit_char(byte_bit(byte, 4)),
        bit_char(byte_bit(byte, 5)),
        bit_char(byte_bit(byte, 6)),
        bit_char(byte_bit(byte, 7)),
        ' ',
    ]
}

/// How bytes are written, one after the other.
pub open spec fn bytes_text(bytes: Seq<u8>) -> Seq<char>
    decreases bytes.len(),
{
    if bytes.len() == 0 {
        Seq::empty()
    } else {
        bytes_text(bytes.drop_last()) + byte_text(bytes.last())
    }
}

/// How the bytes of a container are written; a single `0` where it has none.
pub open spec fn container_text(bytes: Seq<u8>) -> Seq<char> {
    if bytes.len() == 0 {
        seq!['0']
    } else {
        bytes_text(bytes)
    }
}

/// The text of the bytes of a container.
pub fn write_bytes(bytes: &[u8]) -> (repr: String)
    ensures
        repr@ == container_text(bytes@),
{
    proof {
        reveal_strlit("0");
        reveal_strlit("1");
        reveal_strlit("'");
        reveal_strlit(" ");
    }
    if bytes.len() == 0 {
        return String::from_str("0");
    }
    let mut repr = String::new();
    let mut j: usize = 0;
    while j < bytes.len()
        invariant
            j <= bytes.len(),
            "0"@ == seq!['0'],
            "1"@ == seq!['1'],
            "'"@ == seq!['\''],
            " "@ == seq![' '],
            repr@ == bytes_text(bytes@.take(j as int)),
        decreases bytes.len() - j,
    {
        let byte = bytes[j];
        let ghost before = repr@;
        let mut i: u8 = 0;
        while i < 8
            invariant
                i <= 8,
                "0"@ == seq!['0'],
                "1"@ == seq!['1'],
                "'"@ == seq!['\''],
                " "@ == seq![' '],
                repr@ == before + byte_text(byte).take(
                    if i < 4 {
                        i as int
                    } else {
                        i + 1
                    },
                ),
            decreases 8 - i,
        {
            repr.append(if byte & (1u8 << i) == 0 { "0" } else { "1" });
            if i == 3 {
                repr.append("'");
            }
            proof {
                let shown: int = if i < 3 {
                    i + 1
                } else {
                    i + 2
                };
                assert(repr@ =~= before + byte_text(byte).take(shown));
            }
            i += 1;
        }
        repr.append(" ");
        proof {
            assert(repr@ =~= before + byte_text(byte));
            assert(bytes@.take(j + 1).drop_last() =~= bytes@.take(j as int));
        }
        j += 1;
    }
    proof {
        assert(bytes@.take(bytes.len() as int) =~= bytes@);
    }
    repr
}

} // verus!
