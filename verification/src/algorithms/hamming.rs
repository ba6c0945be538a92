//! A Hamming block codec that corrects one wrong bit per block.
//!
//! A block of `n` bits holds `k` data bits and `r` parity bits, where `r` is
//! the least number with `2^r >= k + r + 1`. Positions are told by their
//! distance from the end of the block: the last bit has distance 1, the first
//! one distance `n`. The parity bits stand at the distances that are powers of
//! two. The parity bit at distance `p` covers the distances above `p` that have
//! the bit `p` set, and is chosen so that the set bits among them and itself
//! are even in number.

use vstd::prelude::*;
use vstd::arithmetic::power2::{lemma2_to64, lemma_pow2_pos, lemma_pow2_strictly_increases, lemma_pow2_unfold, pow2};
use crate::bits::{copy_slice, is_bits, zero_bits};

verus! {

/// The longest block that the codec handles: doubling a power of two that is
/// no greater than this stays within `usize`.
pub open spec fn max_block_len() -> nat {
    (usize::MAX / 2) as nat
}

/// The longest payload that the codec handles.
pub open spec fn max_data_len() -> nat {
    (usize::MAX / 2 - 64) as nat
}

/// `d` is a power of two.
pub open spec fn is_power_of_two(d: usize) -> bool {
    d > 0 && d & ((d - 1) as usize) == 0
}

/// The parity bit at distance `p` covers the distance `d`.
pub open spec fn covers(p: usize, d: usize) -> bool {
    d > p && d & p != 0
}

/// `r` parity bits are enough for `k` data bits.
pub open spec fn block_fits(k: nat, r: nat) -> bool {
    pow2(r) >= k + r + 1
}

/// `r` is the number of parity bits that go with `k` data bits: the least
/// that is enough.
pub open spec fn is_parity_count(k: nat, r: nat) -> bool {
    block_fits(k, r) && forall|q: nat| q < r ==> !block_fits(k, q)
}

/// The number of parity bits that go with `k` data bits.
pub open spec fn parity_count(k: nat) -> nat {
    choose|r: nat| is_parity_count(k, r)
}

/// The length of the block that holds `k` data bits.
pub open spec fn message_len(k: nat) -> nat {
    k + parity_count(k)
}

/// The number of parity bits in a block of `n` bits: that of the powers of two
/// up to `n`.
pub open spec fn parity_bits(n: nat) -> nat
    decreases n,
{
    if n == 0 {
        0
    } else {
        1 + parity_bits(n / 2)
    }
}

/// The number of data bits in a block of `n` bits.
pub open spec fn data_len(n: nat) -> nat {
    (n - parity_bits(n)) as nat
}

/// The number of set bits of `m` at the distances that the parity bit at
/// distance `p` covers.
pub open spec fn covered_ones(m: Seq<u8>, p: usize) -> nat
    decreases m.len(),
{
    if m.len() == 0 {
        0
    } else {
        covered_ones(m.skip(1), p) + if covers(p, m.len() as usize) && m[0] == 1 {
            1nat
        } else {
            0nat
        }
    }
}

/// The value that the parity bit at distance `p` must have in `m`.
pub open spec fn parity_of(m: Seq<u8>, p: usize) -> u8 {
    (covered_ones(m, p) % 2) as u8
}

/// A block of `n` bits with the bits of `data` at the data positions, in
/// order, and 255 at the parity positions.
pub open spec fn place_data(data: Seq<u8>, n: nat) -> Seq<u8>
    decreases n,
{
    if n == 0 {
        Seq::empty()
    } else if is_power_of_two(n as usize) || data.len() == 0 {
        seq![255u8] + place_data(data, (n - 1) as nat)
    } else {
        seq![data[0]] + place_data(data.skip(1), (n - 1) as nat)
    }
}

/// `m` with every parity bit set to the value it must have.
pub open spec fn with_parity(m: Seq<u8>) -> Seq<u8> {
    Seq::new(
        m.len(),
        |i: int|
            if is_power_of_two((m.len() - i) as usize) {
                parity_of(m, (m.len() - i) as usize)
            } else {
                m[i]
            },
    )
}

/// The block that encodes `data`.
pub open spec fn encode_block(data: Seq<u8>) -> Seq<u8> {
    with_parity(place_data(data, message_len(data.len())))
}

/// Bit `i` of the syndrome of `m`: 0 where the parity bit at distance `2^i`
/// has the value it must have, 1 where it has not.
pub open spec fn syndrome_bit(m: Seq<u8>, i: nat) -> u8 {
    if parity_of(m, pow2(i) as usize) == m[m.len() - pow2(i)] {
        0
    } else {
        1
    }
}

/// The syndrome of `m`: one bit for each parity bit, that of distance 1 first.
pub open spec fn syndrome(m: Seq<u8>) -> Seq<u8> {
    Seq::new(parity_bits(m.len()), |i: int| syndrome_bit(m, i as nat))
}

/// The number that the bits of `s` spell, least significant first. A bit
/// counts as set when it is 1.
pub open spec fn syndrome_value(s: Seq<u8>) -> nat
    decreases s.len(),
{
    if s.len() == 0 {
        0
    } else {
        syndrome_value(s.drop_last()) + if s.last() == 1 {
            pow2((s.len() - 1) as nat)
        } else {
            0
        }
    }
}

/// The other bit.
pub open spec fn flip_bit(b: u8) -> u8 {
    if b % 2 == 0 {
        1
    } else {
        0
    }
}

/// `m` with the bit flipped that the syndrome `s` names as its distance from
/// the end. Nothing is flipped where `s` holds no set bit or names a distance
/// that the block does not have.
pub open spec fn corrected(m: Seq<u8>, s: Seq<u8>) -> Seq<u8> {
    let d = syndrome_value(s);
    if 1 <= d <= m.len() {
        m.update(m.len() - d, flip_bit(m[m.len() - d]))
    } else {
        m
    }
}

/// The bits of `m` at the data positions, in order.
pub open spec fn extract_data(m: Seq<u8>) -> Seq<u8>
    decreases m.len(),
{
    if m.len() == 0 {
        Seq::empty()
    } else if is_power_of_two(m.len() as usize) {
        extract_data(m.skip(1))
    } else {
        seq![m[0]] + extract_data(m.skip(1))
    }
}

/// The data bits of the block `m` after its correction.
pub open spec fn decode_block(m: Seq<u8>) -> Seq<u8> {
    extract_data(corrected(m, syndrome(m)))
}

/// The blocks that encode `package`, cut into payloads of `k` bits. A last
/// payload that is shorter is filled up with zero bits.
pub open spec fn encode_package(package: Seq<u8>, k: nat) -> Seq<u8>
    decreases package.len(),
{
    if package.len() == 0 || k == 0 {
        Seq::empty()
    } else if package.len() < k {
        encode_block(package + zero_bits((k - package.len()) as nat))
    } else {
        encode_block(package.take(k as int)) + encode_package(package.skip(k as int), k)
    }
}

/// `package`, cut into blocks of `n` bits, with each block corrected.
pub open spec fn correct_package(package: Seq<u8>, n: nat) -> Seq<u8>
    decreases package.len(),
{
    if package.len() < n || n == 0 {
        Seq::empty()
    } else {
        let block = package.take(n as int);
        corrected(block, syndrome(block)) + correct_package(package.skip(n as int), n)
    }
}

/// The payloads of `package`, cut into blocks of `n` bits.
pub open spec fn decode_package(package: Seq<u8>, n: nat) -> Seq<u8>
    decreases package.len(),
{
    if package.len() < n || n == 0 {
        Seq::empty()
    } else {
        decode_block(package.take(n as int)) + decode_package(package.skip(n as int), n)
    }
}

// ---------------------------------------------------------------------------
// Powers of two

/// Two to a power is a power of two as the codec tests it.
pub proof fn lemma_pow2_is_power_of_two(e: nat)
    requires
        pow2(e) <= usize::MAX,
    ensures
        is_power_of_two(pow2(e) as usize),
    decreases e,
{
    lemma2_to64();
    if e == 0 {
        assert(1usize & ((1usize - 1) as usize) == 0) by (bit_vector);
    } else {
        lemma_pow2_unfold(e);
        lemma_pow2_pos((e - 1) as nat);
        lemma_pow2_is_power_of_two((e - 1) as nat);
        let h = pow2((e - 1) as nat) as usize;
        let d = pow2(e) as usize;
        assert(d & ((d - 1) as usize) == 0) by (bit_vector)
            requires
                h > 0,
                h & ((h - 1) as usize) == 0,
                d == 2 * h,
        ;
    }
}

/// `pow2(r) <= n` exactly for the `r` below `parity_bits(n)`.
pub proof fn lemma_parity_bits(n: nat, r: nat)
    ensures
        pow2(r) <= n <==> r < parity_bits(n),
    decreases n,
{
    lemma2_to64();
    if n == 0 {
        lemma_pow2_pos(r);
    } else if r == 0 {
    } else {
        lemma_pow2_unfold(r);
        lemma_parity_bits(n / 2, (r - 1) as nat);
    }
}

/// A power of two between `p` and `2 * p`, for a power of two `p`, is `p`.
pub proof fn lemma_power_of_two_between(p: usize, d: usize)
    requires
        is_power_of_two(p),
        is_power_of_two(d),
        p <= d,
        d < 2 * p,
    ensures
        d == p,
{
    let p_less = (p - 1) as usize;
    let d_less = (d - 1) as usize;
    assert(d == p) by (bit_vector)
        requires
            p > 0,
            d > 0,
            p_less == p - 1,
            d_less == d - 1,
            p & p_less == 0,
            d & d_less == 0,
            p <= d,
            d - p < p,
    ;
}

/// No parity position is covered by a parity bit.
pub proof fn lemma_parity_not_covered(p: usize, d: usize)
    requires
        is_power_of_two(p),
        is_power_of_two(d),
    ensures
        !covers(p, d),
{
    let p_less = (p - 1) as usize;
    let d_less = (d - 1) as usize;
    assert(d > p ==> d & p == 0) by (bit_vector)
        requires
            p > 0,
            d > 0,
            p_less == p - 1,
            d_less == d - 1,
            p & p_less == 0,
            d & d_less == 0,
    ;
}

/// Fewer parity bits than bits.
pub proof fn lemma_parity_bits_bound(n: nat)
    ensures
        parity_bits(n) <= n,
    decreases n,
{
    if n > 0 {
        lemma_parity_bits_bound(n / 2);
    }
}

/// What the exit of a doubling loop says: `r` is `parity_bits(n)` where `2^r`
/// is the first power of two above `n`.
pub proof fn lemma_parity_bits_is(n: nat, r: nat)
    requires
        pow2(r) > n,
        r == 0 || pow2((r - 1) as nat) <= n,
    ensures
        parity_bits(n) == r,
{
    lemma_parity_bits(n, r);
    if r > 0 {
        lemma_parity_bits(n, (r - 1) as nat);
    }
}

/// A power of two within `usize` has an exponent below 64.
pub proof fn lemma_exponent_bound(r: nat)
    requires
        pow2(r) <= usize::MAX,
    ensures
        r < 64,
{
    lemma2_to64();
    if r >= 64 {
        if r > 64 {
            lemma_pow2_strictly_increases(64, r);
        }
    }
}

/// No distance up to `p` is covered by the parity bit at distance `p`.
pub proof fn lemma_covered_ones_short(m: Seq<u8>, p: usize)
    requires
        m.len() <= p,
    ensures
        covered_ones(m, p) == 0,
    decreases m.len(),
{
    if m.len() > 0 {
        lemma_covered_ones_short(m.skip(1), p);
    }
}

/// The set bits that a parity bit covers do not depend on what stands at the
/// parity positions.
pub proof fn lemma_covered_ones_agree(a: Seq<u8>, b: Seq<u8>, p: usize)
    requires
        a.len() == b.len(),
        a.len() <= usize::MAX,
        is_power_of_two(p),
        forall|i: int|
            0 <= i < a.len() && !is_power_of_two((a.len() - i) as usize) ==> a[i] == b[i],
    ensures
        covered_ones(a, p) == covered_ones(b, p),
    decreases a.len(),
{
    if a.len() > 0 {
        let a1 = a.skip(1);
        let b1 = b.skip(1);
        assert forall|i: int|
            0 <= i < a1.len() && !is_power_of_two((a1.len() - i) as usize) implies a1[i]
            == b1[i] by {
            assert(a1[i] == a[i + 1]);
            assert(b1[i] == b[i + 1]);
        }
        lemma_covered_ones_agree(a1, b1, p);
        if is_power_of_two(a.len() as usize) {
            lemma_parity_not_covered(p, a.len() as usize);
        } else {
            assert(a[0] == b[0]);
        }
    }
}

/// The number of data positions in a block of `n` bits, counted one by one.
pub open spec fn data_positions(n: nat) -> nat
    decreases n,
{
    if n == 0 {
        0
    } else if is_power_of_two(n as usize) {
        data_positions((n - 1) as nat)
    } else {
        1 + data_positions((n - 1) as nat)
    }
}

/// The data positions of a block are those that the parity bits leave.
pub proof fn lemma_data_positions(n: nat)
    requires
        n <= max_block_len(),
    ensures
        data_positions(n) + parity_bits(n) == n,
    decreases n,
{
    lemma2_to64();
    if n > 0 {
        lemma_data_positions((n - 1) as nat);
        let b = parity_bits(n);
        lemma_parity_bits(n, (b - 1) as nat);
        lemma_parity_bits(n, b);
        lemma_pow2_unfold(b);
        let low = pow2((b - 1) as nat);
        lemma_pow2_is_power_of_two((b - 1) as nat);
        if n == low {
            if b >= 2 {
                lemma_pow2_unfold((b - 1) as nat);
                lemma_parity_bits_is((n - 1) as nat, (b - 1) as nat);
            } else {
                assert(n == 1);
                assert(parity_bits(0) == 0);
            }
        } else {
            if is_power_of_two(n as usize) {
                lemma_power_of_two_between(low as usize, n as usize);
            }
            lemma_parity_bits_is((n - 1) as nat, b);
        }
    }
}

/// The number that goes with `k` data bits is the number of parity bits of the
/// block that holds them.
pub proof fn lemma_parity_count(k: nat, r: nat)
    requires
        is_parity_count(k, r),
    ensures
        parity_count(k) == r,
        message_len(k) == k + r,
        parity_bits(k + r) == r,
        data_len(k + r) == k,
{
    let c = parity_count(k);
    assert(is_parity_count(k, c));
    if c < r {
        assert(!block_fits(k, c));
    }
    if r < c {
        assert(!block_fits(k, r));
    }
    lemma2_to64();
    if r > 0 {
        assert(!block_fits(k, (r - 1) as nat));
    }
    lemma_parity_bits_is(k + r, r);
}

/// The length of the block that holds `data_len` data bits.
pub fn message_length(data_len: usize) -> (n: usize)
    requires
        data_len <= max_data_len(),
    ensures
        n == message_len(data_len as nat),
        is_parity_count(data_len as nat, (n - data_len) as nat),
        n <= max_block_len(),
{
    let mut redundant_count: usize = 0;
    let mut power: usize = 1;
    proof {
        lemma2_to64();
    }
    while power < data_len + redundant_count + 1
        invariant
            data_len <= max_data_len(),
            power == pow2(redundant_count as nat),
            redundant_count <= 64,
            forall|q: nat| q < redundant_count ==> !block_fits(data_len as nat, q),
        decreases 64 - redundant_count,
    {
        proof {
            lemma_exponent_bound(redundant_count as nat);
            lemma_pow2_unfold((redundant_count + 1) as nat);
        }
        redundant_count += 1;
        power *= 2;
    }
    proof {
        lemma_exponent_bound(redundant_count as nat);
        lemma_parity_count(data_len as nat, redundant_count as nat);
    }
    redundant_count + data_len
}

/// The number of data bits in a block of `message_len` bits.
pub fn data_length(message_len: usize) -> (k: usize)
    requires
        message_len <= max_block_len(),
    ensures
        k == data_len(message_len as nat),
{
    let mut redundant_count: usize = 0;
    let mut power: usize = 1;
    proof {
        lemma2_to64();
    }
    while power < message_len + 1
        invariant
            message_len <= max_block_len(),
            power == pow2(redundant_count as nat),
            redundant_count <= 64,
            redundant_count == 0 || pow2((redundant_count - 1) as nat) <= message_len,
        decreases 64 - redundant_count,
    {
        proof {
            lemma_exponent_bound(redundant_count as nat);
            lemma_pow2_unfold((redundant_count + 1) as nat);
        }
        redundant_count += 1;
        power *= 2;
    }
    proof {
        lemma_parity_bits_is(message_len as nat, redundant_count as nat);
        lemma_parity_bits_bound(message_len as nat);
    }
    message_len - redundant_count
}

/// The value that the parity bit at distance `p` must have in `message`.
pub fn covered_parity(message: &[u8], p: usize) -> (parity: u8)
    requires
        0 < p <= message.len(),
    ensures
        parity == parity_of(message@, p),
{
    let n = message.len();
    let mut j: usize = n - p;
    let mut ones_count: usize = 0;
    proof {
        lemma_covered_ones_short(message@.skip(j as int), p);
    }
    while j > 0
        invariant
            n == message.len(),
            0 < p <= n,
            j <= n - p,
            ones_count <= n - j,
            ones_count == covered_ones(message@.skip(j as int), p),
        decreases j,
    {
        j -= 1;
        proof {
            assert(message@.skip(j as int).skip(1) =~= message@.skip(j + 1));
        }
        // the parity bit covers this bit where the bit `p` of its distance is set
        if (n - j) & p != 0 && message[j] == 1 {
            ones_count += 1;
        }
    }
    proof {
        assert(message@.skip(0) =~= message@);
    }
    (ones_count % 2) as u8
}

/// A block with the bits of `data` at the data positions and 255 at the
/// parity positions.
pub fn data_to_message(data: &[u8]) -> (message: Vec<u8>)
    requires
        data.len() <= max_data_len(),
    ensures
        message@ == place_data(data@, message_len(data.len() as nat)),
        message.len() == message_len(data.len() as nat),
        message.len() <= max_block_len(),
{
    let data_len = data.len();
    let message_len = message_length(data_len);
    let mut message: Vec<u8> = Vec::new();
    let mut data_ptr: usize = 0;
    let mut i: usize = 0;
    proof {
        lemma_parity_count(data_len as nat, (message_len - data_len) as nat);
        lemma_data_positions(message_len as nat);
        assert(data@.skip(0) =~= data@);
    }
    while i < message_len
        invariant
            i <= message_len,
            data_len == data.len(),
            data_ptr <= data_len,
            message_len <= max_block_len(),
            message.len() == i,
            data_ptr + data_positions((message_len - i) as nat) == data_len,
            message@ + place_data(data@.skip(data_ptr as int), (message_len - i) as nat)
                == place_data(data@, message_len as nat),
        decreases message_len - i,
    {
        let ghost rest = data@.skip(data_ptr as int);
        if (message_len - i - 1) & (message_len - i) != 0 {
            proof {
                let d = (message_len - i) as usize;
                let d_less = (d - 1) as usize;
                assert(d & d_less == d_less & d) by (bit_vector);
                assert(!is_power_of_two(d));
                assert(rest.skip(1) =~= data@.skip(data_ptr + 1));
                assert((message@.push(data[data_ptr as int]) + place_data(
                    rest.skip(1),
                    (message_len - i - 1) as nat,
                )) =~= message@ + place_data(rest, (message_len - i) as nat));
            }
            message.push(data[data_ptr]);
            data_ptr += 1;
        } else {
            proof {
                let d = (message_len - i) as usize;
                let d_less = (d - 1) as usize;
                assert(d & d_less == d_less & d) by (bit_vector);
                assert(is_power_of_two(d));
                assert((message@.push(255u8) + place_data(rest, (message_len - i - 1) as nat))
                    =~= message@ + place_data(rest, (message_len - i) as nat));
            }
            message.push(u8::MAX);
        }
        i += 1;
    }
    proof {
        assert(message@ + Seq::<u8>::empty() =~= message@);
    }
    message
}

/// The block that encodes `data`.
pub fn add_parity(data: &[u8]) -> (message: Vec<u8>)
    requires
        data.len() <= max_data_len(),
    ensures
        message@ == encode_block(data@),
        message.len() == message_len(data.len() as nat),
        message.len() <= max_block_len(),
{
    let mut message = data_to_message(data);
    let msg_len = message.len();
    let ghost placed = message@;

    // assigning parity bits
    let mut pbit: usize = 0;
    let mut i: usize = 1;
    proof {
        lemma2_to64();
    }
    while i <= msg_len
        invariant
            msg_len == message.len(),
            msg_len == placed.len(),
            msg_len <= max_block_len(),
            pbit <= 64,
            i == pow2(pbit as nat),
            i > 0,
            forall|t: int|
                0 <= t < msg_len ==> message@[t] == (if is_power_of_two((msg_len - t) as usize)
                    && msg_len - t < i {
                    parity_of(placed, (msg_len - t) as usize)
                } else {
                    placed[t]
                }),
        decreases 64 - pbit,
    {
        let pbit_pos = msg_len - i;  // position of parity bit in array
        proof {
            lemma_exponent_bound(pbit as nat);
            lemma_pow2_unfold((pbit + 1) as nat);
            lemma_pow2_is_power_of_two(pbit as nat);
            lemma_covered_ones_agree(message@, placed, i);
        }
        let parity = covered_parity(message.as_slice(), i);
        message[pbit_pos] = parity;
        proof {
            assert forall|t: int| 0 <= t < msg_len implies message@[t] == (if is_power_of_two(
                (msg_len - t) as usize,
            ) && msg_len - t < 2 * i {
                parity_of(placed, (msg_len - t) as usize)
            } else {
                placed[t]
            }) by {
                let d = (msg_len - t) as usize;
                if is_power_of_two(d) && i <= d && d < 2 * i {
                    lemma_power_of_two_between(i, d);
                }
            }
        }
        pbit += 1;
        i *= 2;
    }
    proof {
        assert(message@ =~= with_parity(placed));
    }
    message
}

/// The data bits of `message`: what stands at its data positions.
pub fn message_to_data(message: &[u8]) -> (data: Vec<u8>)
    ensures
        data@ == extract_data(message@),
{
    let message_len = message.len();
    let mut data: Vec<u8> = Vec::new();
    let mut i: usize = 0;
    proof {
        assert(message@.skip(0) =~= message@);
    }
    while i < message_len
        invariant
            i <= message_len,
            message_len == message.len(),
            data@ + extract_data(message@.skip(i as int)) == extract_data(message@),
        decreases message_len - i,
    {
        let ghost rest = message@.skip(i as int);
        proof {
            let d = (message_len - i) as usize;
            let d_less = (d - 1) as usize;
            assert(d & d_less == d_less & d) by (bit_vector);
            assert(rest.skip(1) =~= message@.skip(i + 1));
        }
        if (message_len - i - 1) & (message_len - i) != 0 {
            proof {
                assert(data@.push(message[i as int]) + extract_data(rest.skip(1)) =~= data@
                    + extract_data(rest));
            }
            data.push(message[i]);
        }
        i += 1;
    }
    proof {
        assert(data@ + Seq::<u8>::empty() =~= data@);
    }
    data
}

/// The syndrome of `message`: for each parity bit, whether it has the value
/// that it must have.
pub fn check_for_erros(message: &[u8]) -> (syndrom: Vec<u8>)
    requires
        message.len() <= max_block_len(),
    ensures
        syndrom@ == syndrome(message@),
{
    let mut syndrom: Vec<u8> = Vec::new();
    let message_len = message.len();

    let mut pbit: usize = 0;
    let mut i: usize = 1;
    proof {
        lemma2_to64();
    }
    while i <= message_len
        invariant
            message_len == message.len(),
            message_len <= max_block_len(),
            pbit <= 64,
            i == pow2(pbit as nat),
            i > 0,
            pbit == 0 || pow2((pbit - 1) as nat) <= message_len,
            syndrom@ == Seq::new(pbit as nat, |t: int| syndrome_bit(message@, t as nat)),
        decreases 64 - pbit,
    {
        let pbit_pos = message_len - i;  // position of parity bit in array
        proof {
            lemma_exponent_bound(pbit as nat);
            lemma_pow2_unfold((pbit + 1) as nat);
        }
        let parity = covered_parity(message, i);
        let ghost before = syndrom@;
        if parity == message[pbit_pos] {
            syndrom.push(0);
        } else {
            syndrom.push(1);
        }
        proof {
            assert(syndrom@ =~= Seq::new(
                (pbit + 1) as nat,
                |t: int| syndrome_bit(message@, t as nat),
            ));
        }
        pbit += 1;
        i *= 2;
    }
    proof {
        lemma_parity_bits_is(message_len as nat, pbit as nat);
    }
    syndrom
}

/// The set bits of a syndrome below the exponent `e` spell less than `2^e`.
pub proof fn lemma_syndrome_value_bound(s: Seq<u8>)
    ensures
        syndrome_value(s) < pow2(s.len()),
    decreases s.len(),
{
    lemma2_to64();
    if s.len() > 0 {
        lemma_syndrome_value_bound(s.drop_last());
        lemma_pow2_unfold(s.len());
    }
}

/// Flips the bit of `message` that `syndrom` names as its distance from the
/// end. Nothing is flipped where `syndrom` holds no set bit or names a
/// distance that the block does not have.
pub fn correct_error(message: &mut [u8], syndrom: &Vec<u8>)
    requires
        old(message).len() <= max_block_len(),
    ensures
        final(message)@ == corrected(old(message)@, syndrom@),
{
    let n = message.len();
    let mut power_of_two: usize = 1;
    // whether `power_of_two` is a distance that the block has
    let mut in_range = n >= 1;
    let mut wrong_bit: usize = 0;
    let mut i: usize = 0;
    proof {
        lemma2_to64();
    }
    // converting binary form to decimal
    while i < syndrom.len()
        invariant
            i <= syndrom.len(),
            n <= max_block_len(),
            in_range ==> power_of_two == pow2(i as nat) && power_of_two <= n && wrong_bit
                == syndrome_value(syndrom@.take(i as int)) && wrong_bit < power_of_two,
            !in_range ==> pow2(i as nat) > n && ((wrong_bit == syndrome_value(
                syndrom@.take(i as int),
            ) && wrong_bit <= 2 * n) || (wrong_bit == n + 1 && syndrome_value(
                syndrom@.take(i as int),
            ) > n)),
        decreases syndrom.len() - i,
    {
        proof {
            assert(syndrom@.take(i + 1).drop_last() =~= syndrom@.take(i as int));
            lemma_pow2_unfold((i + 1) as nat);
            lemma_pow2_pos(i as nat);
        }
        if in_range {
            if syndrom[i] == 1 {
                wrong_bit += power_of_two;
            }
            if power_of_two > n / 2 {
                in_range = false;
            } else {
                power_of_two *= 2;
            }
        } else if syndrom[i] == 1 {
            wrong_bit = n + 1;
        }
        i += 1;
    }
    proof {
        assert(syndrom@.take(i as int) =~= syndrom@);
    }
    if 1 <= wrong_bit && wrong_bit <= n {
        // reversing index
        let wrong_bit = n - wrong_bit;
        message[wrong_bit] = if message[wrong_bit] % 2 == 0 { 1 } else { 0 };
    }
}

/// Corrects the block `message` and hands out its data bits.
pub fn remove_parity(message: &mut [u8]) -> (data: Vec<u8>)
    requires
        old(message).len() <= max_block_len(),
    ensures
        final(message)@ == corrected(old(message)@, syndrome(old(message)@)),
        data@ == decode_block(old(message)@),
{
    let syndrom = check_for_erros(message);

    correct_error(message, &syndrom);
    message_to_data(message)
}

/// The blocks that encode `package`, cut into payloads of `data_len` bits.
/// A last payload that is shorter is filled up with zero bits.
pub fn add_parity_package(package: &[u8], data_len: usize) -> (encoded: Vec<u8>)
    requires
        0 < data_len <= max_data_len(),
    ensures
        encoded@ == encode_package(package@, data_len as nat),
{
    let mut encoded: Vec<u8> = Vec::new();
    let pckg_len = package.len();
    let mut data_ptr: usize = 0;
    proof {
        assert(package@.skip(0) =~= package@);
    }
    while data_ptr < pckg_len
        invariant
            data_ptr <= pckg_len,
            pckg_len == package.len(),
            0 < data_len <= max_data_len(),
            encoded@ + encode_package(package@.skip(data_ptr as int), data_len as nat)
                == encode_package(package@, data_len as nat),
        decreases pckg_len - data_ptr,
    {
        let ghost rest = package@.skip(data_ptr as int);
        if pckg_len - data_ptr < data_len {
            let mut data_to_encode = copy_slice(&package[data_ptr..pckg_len]);
            while data_to_encode.len() < data_len
                invariant
                    data_to_encode.len() <= data_len,
                    rest.len() <= data_to_encode.len(),
                    data_to_encode@ == rest + zero_bits((data_to_encode.len() - rest.len()) as nat),
                decreases data_len - data_to_encode.len(),
            {
                data_to_encode.push(0);
            }
            let mut block = add_parity(data_to_encode.as_slice());
            proof {
                assert(package@.skip(pckg_len as int) =~= Seq::<u8>::empty());
                assert(encoded@ + block@ + Seq::<u8>::empty() =~= encoded@ + encode_package(
                    rest,
                    data_len as nat,
                ));
            }
            encoded.append(&mut block);
            data_ptr = pckg_len;
        } else {
            let mut block = add_parity(&package[data_ptr..data_ptr + data_len]);
            proof {
                assert(rest.take(data_len as int) =~= package@.subrange(
                    data_ptr as int,
                    data_ptr + data_len,
                ));
                assert(rest.skip(data_len as int) =~= package@.skip(data_ptr + data_len));
                assert(encoded@ + block@ + encode_package(
                    rest.skip(data_len as int),
                    data_len as nat,
                ) =~= encoded@ + encode_package(rest, data_len as nat));
            }
            encoded.append(&mut block);
            data_ptr += data_len;
        }
    }
    proof {
        assert(package@.skip(pckg_len as int) =~= Seq::<u8>::empty());
        assert(encoded@ + Seq::<u8>::empty() =~= encoded@);
    }
    encoded
}

/// Overwrites the elements of `package` from `at` on with those of `block`.
fn write_block(package: &mut [u8], at: usize, block: &[u8])
    requires
        at + block.len() <= old(package).len(),
    ensures
        final(package)@ == old(package)@.take(at as int) + block@ + old(package)@.skip(
            at + block.len(),
        ),
{
    let n = block.len();
    let mut i: usize = 0;
    while i < n
        invariant
            i <= n,
            n == block.len(),
            package.len() == old(package).len(),
            at + n <= package.len(),
            package@ == old(package)@.take(at as int) + block@.take(i as int) + old(
                package,
            )@.skip(at + i),
        decreases n - i,
    {
        package[at + i] = block[i];
        proof {
            assert(package@ =~= old(package)@.take(at as int) + block@.take(i + 1) + old(
                package,
            )@.skip(at + i + 1));
        }
        i += 1;
    }
    proof {
        assert(block@.take(n as int) =~= block@);
    }
}

/// Corrects each block of `message_len` bits of `package` and hands out the
/// payloads, one after the other. The length of `package` is a multiple of
/// `message_len`.
pub fn remove_parity_package(package: &mut [u8], message_len: usize) -> (decoded: Vec<u8>)
    requires
        0 < message_len <= max_block_len(),
        old(package).len() as int % message_len as int == 0,
    ensures
        final(package)@ == correct_package(old(package)@, message_len as nat),
        decoded@ == decode_package(old(package)@, message_len as nat),
{
    let mut decoded: Vec<u8> = Vec::new();
    let pckg_len = package.len();
    let mut msg_ptr: usize = 0;
    proof {
        assert(package@.skip(0) =~= package@);
        assert(package@.take(0) + correct_package(package@, message_len as nat)
            =~= correct_package(package@, message_len as nat));
    }
    while msg_ptr < pckg_len
        invariant
            msg_ptr <= pckg_len,
            pckg_len == package.len(),
            pckg_len == old(package).len(),
            0 < message_len <= max_block_len(),
            (pckg_len - msg_ptr) % (message_len as int) == 0,
            package@.skip(msg_ptr as int) == old(package)@.skip(msg_ptr as int),
            package@.take(msg_ptr as int) + correct_package(
                old(package)@.skip(msg_ptr as int),
                message_len as nat,
            ) == correct_package(old(package)@, message_len as nat),
            decoded@ + decode_package(old(package)@.skip(msg_ptr as int), message_len as nat)
                == decode_package(old(package)@, message_len as nat),
        decreases pckg_len - msg_ptr,
    {
        let ghost rest = old(package)@.skip(msg_ptr as int);
        let ghost before = package@;
        proof {
            if pckg_len - msg_ptr < message_len {
                vstd::arithmetic::div_mod::lemma_small_mod(
                    (pckg_len - msg_ptr) as nat,
                    message_len as nat,
                );
            }
            vstd::arithmetic::div_mod::lemma_mod_sub_multiples_vanish(
                (pckg_len - msg_ptr) as int,
                message_len as int,
            );
        }
        let mut block = copy_slice(&package[msg_ptr..msg_ptr + message_len]);
        proof {
            assert(block@ =~= rest.take(message_len as int));
        }
        let mut data = remove_parity(block.as_mut_slice());
        write_block(package, msg_ptr, block.as_slice());
        proof {
            assert(rest.skip(message_len as int) =~= old(package)@.skip(msg_ptr + message_len));
            assert(package@.skip(msg_ptr + message_len) =~= old(package)@.skip(
                msg_ptr + message_len,
            ));
            assert(package@.take(msg_ptr + message_len) =~= before.take(msg_ptr as int)
                + block@);
            assert(package@.take(msg_ptr + message_len) + correct_package(
                rest.skip(message_len as int),
                message_len as nat,
            ) =~= before.take(msg_ptr as int) + correct_package(rest, message_len as nat));
            assert(decoded@ + data@ + decode_package(
                rest.skip(message_len as int),
                message_len as nat,
            ) =~= decoded@ + decode_package(rest, message_len as nat));
        }
        decoded.append(&mut data);
        msg_ptr += message_len;
    }
    proof {
        assert(old(package)@.skip(pckg_len as int) =~= Seq::<u8>::empty());
        assert(package@.take(pckg_len as int) =~= package@);
        assert(package@ + Seq::<u8>::empty() =~= package@);
        assert(decoded@ + Seq::<u8>::empty() =~= decoded@);
    }
    decoded
}

// ---------------------------------------------------------------------------
// What the codec guarantees

/// A block without its parity bits is as long as the block.
pub proof fn lemma_place_data_len(data: Seq<u8>, n: nat)
    ensures
        place_data(data, n).len() == n,
    decreases n,
{
    if n > 0 {
        if is_power_of_two(n as usize) || data.len() == 0 {
            lemma_place_data_len(data, (n - 1) as nat);
        } else {
            lemma_place_data_len(data.skip(1), (n - 1) as nat);
        }
    }
}

/// The data bits of a block do not depend on what stands at its parity
/// positions.
pub proof fn lemma_extract_agree(a: Seq<u8>, b: Seq<u8>)
    requires
        a.len() == b.len(),
        forall|i: int|
            0 <= i < a.len() && !is_power_of_two((a.len() - i) as usize) ==> a[i] == b[i],
    ensures
        extract_data(a) == extract_data(b),
    decreases a.len(),
{
    if a.len() > 0 {
        let a1 = a.skip(1);
        let b1 = b.skip(1);
        assert forall|i: int|
            0 <= i < a1.len() && !is_power_of_two((a1.len() - i) as usize) implies a1[i]
            == b1[i] by {
            assert(a1[i] == a[i + 1]);
            assert(b1[i] == b[i + 1]);
        }
        lemma_extract_agree(a1, b1);
        if !is_power_of_two(a.len() as usize) {
            assert(a[0] == b[0]);
        }
    }
}

/// Placing data into a block with as many data positions and reading the
/// data positions gives the data back.
pub proof fn lemma_extract_placed(data: Seq<u8>, n: nat)
    requires
        data_positions(n) == data.len(),
    ensures
        extract_data(place_data(data, n)) == data,
    decreases n,
{
    let placed = place_data(data, n);
    lemma_place_data_len(data, n);
    if n == 0 {
        assert(data =~= Seq::<u8>::empty());
    } else if is_power_of_two(n as usize) {
        lemma_extract_placed(data, (n - 1) as nat);
        assert(placed.skip(1) =~= place_data(data, (n - 1) as nat));
    } else {
        lemma_extract_placed(data.skip(1), (n - 1) as nat);
        assert(placed.skip(1) =~= place_data(data.skip(1), (n - 1) as nat));
        assert(seq![data[0]] + data.skip(1) =~= data);
    }
}

/// At its data positions a block holds bits where the data are bits.
pub proof fn lemma_placed_bits(data: Seq<u8>, n: nat, i: int)
    requires
        is_bits(data),
        data_positions(n) == data.len(),
        0 <= i < n,
        !is_power_of_two((n - i) as usize),
    ensures
        place_data(data, n)[i] <= 1,
    decreases n,
{
    lemma_place_data_len(data, n);
    if is_power_of_two(n as usize) {
        lemma_place_data_len(data, (n - 1) as nat);
        lemma_placed_bits(data, (n - 1) as nat, i - 1);
    } else if i > 0 {
        lemma_place_data_len(data.skip(1), (n - 1) as nat);
        assert forall|j: int| 0 <= j < data.skip(1).len() implies (#[trigger] data.skip(1)[j])
            <= 1 by {
            assert(data.skip(1)[j] == data[j + 1]);
        }
        lemma_placed_bits(data.skip(1), (n - 1) as nat, i - 1);
    } else {
        assert(data[0] <= 1);
    }
}

/// A syndrome without a set bit spells zero.
pub proof fn lemma_zero_syndrome(s: Seq<u8>)
    requires
        forall|i: int| 0 <= i < s.len() ==> s[i] != 1,
    ensures
        syndrome_value(s) == 0,
    decreases s.len(),
{
    if s.len() > 0 {
        lemma_zero_syndrome(s.drop_last());
    }
}

/// What a change of one element does to the set bits that a parity bit
/// covers.
pub proof fn lemma_covered_ones_update(m: Seq<u8>, e: int, v: u8, p: usize)
    requires
        0 <= e < m.len(),
    ensures
        covered_ones(m.update(e, v), p) + (if covers(p, (m.len() - e) as usize) && m[e] == 1 {
            1nat
        } else {
            0nat
        }) == covered_ones(m, p) + (if covers(p, (m.len() - e) as usize) && v == 1 {
            1nat
        } else {
            0nat
        }),
    decreases m.len(),
{
    let u = m.update(e, v);
    if e == 0 {
        assert(u.skip(1) =~= m.skip(1));
    } else {
        assert(u.skip(1) =~= m.skip(1).update(e - 1, v));
        lemma_covered_ones_update(m.skip(1), e - 1, v, p);
    }
}

/// The bits of `d` below the exponent `j`, as a syndrome spells them.
pub open spec fn distance_bits(d: usize, j: nat) -> Seq<u8> {
    Seq::new(j, |i: int| if d & (pow2(i as nat) as usize) != 0 { 1u8 } else { 0u8 })
}

/// The bits of a distance spell the distance.
pub proof fn lemma_distance_bits(d: usize, j: nat)
    requires
        pow2(j) <= usize::MAX,
    ensures
        syndrome_value(distance_bits(d, j)) == d & ((pow2(j) - 1) as usize),
    decreases j,
{
    lemma2_to64();
    if j == 0 {
        assert(d & 0usize == 0) by (bit_vector);
    } else {
        let h = (j - 1) as nat;
        lemma_pow2_unfold(j);
        lemma_pow2_pos(h);
        lemma_distance_bits(d, h);
        lemma_pow2_is_power_of_two(h);
        assert(distance_bits(d, j).drop_last() =~= distance_bits(d, h));
        let low = pow2(h) as usize;
        let low_less = (low - 1) as usize;
        let high_less = (2 * low - 1) as usize;
        assert(d & high_less == (d & low_less) + (if d & low != 0 {
            low
        } else {
            0usize
        })) by (bit_vector)
            requires
                low > 0,
                low_less == low - 1,
                low & low_less == 0,
                high_less == low + low_less,
        ;
    }
}

/// A distance below a power of two keeps all its bits below that power.
pub proof fn lemma_low_bits_all(d: usize, p: usize)
    requires
        is_power_of_two(p),
        d < p,
    ensures
        d & ((p - 1) as usize) == d,
{
    let p_less = (p - 1) as usize;
    assert(d & p_less == d) by (bit_vector)
        requires
            p > 0,
            p_less == p - 1,
            p & p_less == 0,
            d < p,
    ;
}

/// A distance that has the bit of a power of two set is no less than it.
pub proof fn lemma_bit_set_ge(d: usize, p: usize)
    requires
        is_power_of_two(p),
        d & p != 0,
    ensures
        d >= p,
{
    let p_less = (p - 1) as usize;
    assert(d >= p) by (bit_vector)
        requires
            p > 0,
            p_less == p - 1,
            p & p_less == 0,
            d & p != 0,
    ;
}

/// Every parity bit of an encoded block has the value that it must have.
pub proof fn lemma_encoded_syndrome(data: Seq<u8>, i: nat)
    requires
        data.len() <= max_data_len(),
        i < parity_bits(message_len(data.len())),
    ensures
        syndrome_bit(encode_block(data), i) == 0,
        pow2(i) <= message_len(data.len()),
{
    let n = message_len(data.len());
    let placed = place_data(data, n);
    let c = encode_block(data);
    lemma_place_data_len(data, n);
    lemma_parity_bits(n, i);
    lemma_block_len_bound(data.len());
    lemma_pow2_is_power_of_two(i);
    lemma_pow2_pos(i);
    lemma_covered_ones_agree(c, placed, pow2(i) as usize);
}

/// The block that holds a payload of a length that the codec handles is of a
/// length that the codec handles.
pub proof fn lemma_block_len_bound(k: nat)
    requires
        k <= max_data_len(),
    ensures
        message_len(k) <= max_block_len(),
        data_positions(message_len(k)) == k,
        parity_bits(message_len(k)) == parity_count(k),
        is_parity_count(k, parity_count(k)),
{
    lemma2_to64();
    // 64 parity bits are enough for any such payload, so a least number exists
    let r = choose_parity_count(k, 0);
    lemma_parity_count(k, r);
    lemma_data_positions(k + r);
}

/// The least number of parity bits from `from` on that is enough for `k` data
/// bits.
pub proof fn choose_parity_count(k: nat, from: nat) -> (r: nat)
    requires
        k <= max_data_len(),
        from <= 64,
        forall|q: nat| q < from ==> !block_fits(k, q),
    ensures
        is_parity_count(k, r),
        r <= 64,
    decreases 64 - from,
{
    lemma2_to64();
    if block_fits(k, from) {
        from
    } else {
        assert(from < 64);
        choose_parity_count(k, from + 1)
    }
}

/// Decoding an encoded block gives the payload back.
pub proof fn lemma_round_trip(data: Seq<u8>)
    requires
        data.len() <= max_data_len(),
    ensures
        syndrome_value(syndrome(encode_block(data))) == 0,
        decode_block(encode_block(data)) == data,
{
    let n = message_len(data.len());
    let placed = place_data(data, n);
    let c = encode_block(data);
    lemma_place_data_len(data, n);
    lemma_block_len_bound(data.len());
    assert forall|i: int| 0 <= i < syndrome(c).len() implies syndrome(c)[i] != 1 by {
        lemma_encoded_syndrome(data, i as nat);
    }
    lemma_zero_syndrome(syndrome(c));
    lemma_extract_agree(c, placed);
    lemma_extract_placed(data, n);
}

/// Decoding an encoded block in which one bit, whichever, was flipped gives
/// the payload back.
pub proof fn lemma_single_error_corrected(data: Seq<u8>, e: int)
    requires
        data.len() <= max_data_len(),
        is_bits(data),
        0 <= e < message_len(data.len()),
    ensures
        corrected(
            encode_block(data).update(e, flip_bit(encode_block(data)[e])),
            syndrome(encode_block(data).update(e, flip_bit(encode_block(data)[e]))),
        ) == encode_block(data),
        decode_block(encode_block(data).update(e, flip_bit(encode_block(data)[e]))) == data,
{
    let n = message_len(data.len());
    let placed = place_data(data, n);
    let c = encode_block(data);
    let w = c.update(e, flip_bit(c[e]));
    let de = (n - e) as usize;
    let b = parity_bits(n);
    lemma2_to64();
    lemma_place_data_len(data, n);
    lemma_block_len_bound(data.len());
    // the bit at `e` is a bit
    if !is_power_of_two(de) {
        lemma_placed_bits(data, n, e);
    }
    assert(c[e] <= 1);
    assert(flip_bit(flip_bit(c[e])) == c[e]);
    // each syndrome bit of the damaged block is the bit of the distance
    assert forall|i: int| 0 <= i < b implies syndrome(w)[i] == distance_bits(de, b)[i] by {
        let p = pow2(i as nat) as usize;
        lemma_encoded_syndrome(data, i as nat);
        lemma_pow2_is_power_of_two(i as nat);
        lemma_covered_ones_update(c, e, flip_bit(c[e]), p);
        if de == p {
            assert(p & p != 0) by (bit_vector)
                requires
                    p > 0,
            ;
        } else {
            if de & p != 0 {
                lemma_bit_set_ge(de, p);
            }
        }
    }
    assert(syndrome(w) =~= distance_bits(de, b));
    // the syndrome spells the distance
    lemma_parity_bits(n, b);
    lemma_parity_bits_bound(n);
    if b > 0 {
        lemma_parity_bits(n, (b - 1) as nat);
        lemma_pow2_unfold(b);
    }
    lemma_distance_bits(de, b);
    lemma_pow2_is_power_of_two(b);
    lemma_low_bits_all(de, pow2(b) as usize);
    assert(syndrome_value(syndrome(w)) == de);
    assert(corrected(w, syndrome(w)) =~= c);
    // and the corrected block holds the payload
    lemma_extract_agree(c, placed);
    lemma_extract_placed(data, n);
}

/// Blocks are encoded one by one: behind whole payloads the encoding goes on
/// as from the start.
pub proof fn lemma_encode_package_concat(a: Seq<u8>, b: Seq<u8>, k: nat)
    requires
        k > 0,
        a.len() % k == 0,
    ensures
        encode_package(a + b, k) == encode_package(a, k) + encode_package(b, k),
    decreases a.len(),
{
    if a.len() == 0 {
        assert(a + b =~= b);
        assert(Seq::<u8>::empty() + encode_package(b, k) =~= encode_package(b, k));
    } else {
        if a.len() < k {
            vstd::arithmetic::div_mod::lemma_small_mod(a.len(), k);
        }
        vstd::arithmetic::div_mod::lemma_mod_sub_multiples_vanish(a.len() as int, k as int);
        assert((a + b).take(k as int) =~= a.take(k as int));
        assert((a + b).skip(k as int) =~= a.skip(k as int) + b);
        lemma_encode_package_concat(a.skip(k as int), b, k);
        assert(encode_block(a.take(k as int)) + (encode_package(a.skip(k as int), k)
            + encode_package(b, k)) =~= encode_block(a.take(k as int)) + encode_package(
            a.skip(k as int),
            k,
        ) + encode_package(b, k));
    }
}

/// Blocks are decoded one by one: behind whole blocks the decoding goes on
/// as from the start.
pub proof fn lemma_decode_package_concat(a: Seq<u8>, b: Seq<u8>, n: nat)
    requires
        n > 0,
        a.len() % n == 0,
    ensures
        decode_package(a + b, n) == decode_package(a, n) + decode_package(b, n),
    decreases a.len(),
{
    if a.len() == 0 {
        assert(a + b =~= b);
        assert(Seq::<u8>::empty() + decode_package(b, n) =~= decode_package(b, n));
    } else {
        if a.len() < n {
            vstd::arithmetic::div_mod::lemma_small_mod(a.len(), n);
        }
        vstd::arithmetic::div_mod::lemma_mod_sub_multiples_vanish(a.len() as int, n as int);
        assert((a + b).take(n as int) =~= a.take(n as int));
        assert((a + b).skip(n as int) =~= a.skip(n as int) + b);
        lemma_decode_package_concat(a.skip(n as int), b, n);
        assert(decode_block(a.take(n as int)) + (decode_package(a.skip(n as int), n)
            + decode_package(b, n)) =~= decode_block(a.take(n as int)) + decode_package(
            a.skip(n as int),
            n,
        ) + decode_package(b, n));
    }
}

/// A block has as many data bits as data positions.
pub proof fn lemma_extract_data_len(m: Seq<u8>)
    ensures
        extract_data(m).len() == data_positions(m.len()),
    decreases m.len(),
{
    if m.len() > 0 {
        lemma_extract_data_len(m.skip(1));
    }
}

/// The block that encodes bits holds bits, and is as long as a block is.
pub proof fn lemma_encode_block_bits(data: Seq<u8>)
    requires
        data.len() <= max_data_len(),
        is_bits(data),
    ensures
        is_bits(encode_block(data)),
        encode_block(data).len() == message_len(data.len()),
{
    let n = message_len(data.len());
    lemma_place_data_len(data, n);
    lemma_block_len_bound(data.len());
    assert forall|i: int| 0 <= i < encode_block(data).len() implies (#[trigger] encode_block(
        data,
    )[i]) <= 1 by {
        if !is_power_of_two((n - i) as usize) {
            lemma_placed_bits(data, n, i);
        }
    }
}

/// The zero bits that fill the last payload of `len` bits up to `k` bits.
pub open spec fn fill_len(len: nat, k: nat) -> nat {
    ((k - len % k) % (k as int)) as nat
}

/// A package of one block holds the payload of that block.
pub proof fn lemma_decode_single_block(block: Seq<u8>)
    requires
        block.len() > 0,
    ensures
        decode_package(block, block.len()) == decode_block(block),
{
    let n = block.len();
    assert(block.take(n as int) =~= block);
    assert(block.skip(n as int) =~= Seq::<u8>::empty());
    assert(decode_package(Seq::<u8>::empty(), n) =~= Seq::<u8>::empty());
    assert(decode_block(block) + Seq::<u8>::empty() =~= decode_block(block));
}

/// Decoding the blocks of a package gives the package back, with the zero
/// bits that filled its last payload.
pub proof fn lemma_package_round_trip(package: Seq<u8>, k: nat)
    requires
        0 < k <= max_data_len(),
        is_bits(package),
    ensures
        encode_package(package, k).len() % message_len(k) == 0,
        is_bits(encode_package(package, k)),
        decode_package(encode_package(package, k), message_len(k)) == package + zero_bits(
            fill_len(package.len(), k),
        ),
    decreases package.len(),
{
    let n = message_len(k);
    let encoded = encode_package(package, k);
    lemma_block_len_bound(k);
    vstd::arithmetic::power2::lemma_pow2_pos(parity_count(k));
    vstd::arithmetic::div_mod::lemma_small_mod(0, n);
    vstd::arithmetic::div_mod::lemma_mod_self_0(n as int);
    vstd::arithmetic::div_mod::lemma_small_mod(0, k);
    vstd::arithmetic::div_mod::lemma_mod_self_0(k as int);
    if package.len() == 0 {
        assert(package + zero_bits(0) =~= package);
        assert(decode_package(encoded, n) =~= Seq::<u8>::empty());
    } else if package.len() < k {
        let data = package + zero_bits((k - package.len()) as nat);
        assert(is_bits(data));
        lemma_encode_block_bits(data);
        lemma_round_trip(data);
        lemma_decode_single_block(encoded);
        vstd::arithmetic::div_mod::lemma_small_mod(package.len(), k);
        vstd::arithmetic::div_mod::lemma_small_mod((k - package.len()) as nat, k);
    } else {
        let first = package.take(k as int);
        let rest = package.skip(k as int);
        assert(is_bits(first));
        assert(is_bits(rest));
        lemma_encode_block_bits(first);
        lemma_round_trip(first);
        lemma_package_round_trip(rest, k);
        let block = encode_block(first);
        let more = encode_package(rest, k);
        vstd::arithmetic::div_mod::lemma_mod_adds(block.len() as int, more.len() as int, n as int);
        lemma_decode_package_concat(block, more, n);
        lemma_decode_single_block(block);
        vstd::arithmetic::div_mod::lemma_mod_sub_multiples_vanish(
            package.len() as int,
            k as int,
        );
        assert(first + (rest + zero_bits(fill_len(rest.len(), k))) =~= package + zero_bits(
            fill_len(package.len(), k),
        ));
    }
}

/// A block of zero bits holds zero bits as data, and nothing in it is
/// corrected.
pub proof fn lemma_decode_zero_block(k: nat)
    requires
        0 < k <= max_data_len(),
    ensures
        decode_block(zero_bits(message_len(k))) == zero_bits(k),
{
    let n = message_len(k);
    let block = zero_bits(n);
    lemma_block_len_bound(k);
    assert forall|i: int| 0 <= i < syndrome(block).len() implies syndrome(block)[i] != 1 by {
        lemma_parity_bits(n, i as nat);
        vstd::arithmetic::power2::lemma_pow2_pos(i as nat);
        lemma_covered_ones_zeros(block, vstd::arithmetic::power2::pow2(i as nat) as usize);
    }
    lemma_zero_syndrome(syndrome(block));
    lemma_extract_zeros(block);
    lemma_extract_data_len(block);
    assert(extract_data(block) =~= zero_bits(k));
}

/// No zero bit is a set bit.
pub proof fn lemma_covered_ones_zeros(m: Seq<u8>, p: usize)
    requires
        forall|i: int| 0 <= i < m.len() ==> m[i] == 0,
    ensures
        covered_ones(m, p) == 0,
    decreases m.len(),
{
    if m.len() > 0 {
        lemma_covered_ones_zeros(m.skip(1), p);
    }
}

/// The data bits of zero bits are zero bits.
pub proof fn lemma_extract_zeros(m: Seq<u8>)
    requires
        forall|i: int| 0 <= i < m.len() ==> m[i] == 0,
    ensures
        forall|i: int| 0 <= i < extract_data(m).len() ==> (#[trigger] extract_data(m)[i]) == 0,
    decreases m.len(),
{
    if m.len() > 0 {
        let rest = extract_data(m.skip(1));
        lemma_extract_zeros(m.skip(1));
        assert forall|i: int| 0 <= i < extract_data(m).len() implies (#[trigger] extract_data(
            m,
        )[i]) == 0 by {
            if is_power_of_two(m.len() as usize) {
                assert(extract_data(m)[i] == rest[i]);
            } else if i > 0 {
                assert(extract_data(m)[i] == rest[i - 1]);
            } else {
                assert(extract_data(m)[i] == m[0]);
            }
        }
    }
}

/// Blocks of zero bits hold zero bits as data.
pub proof fn lemma_decode_zero_blocks(blocks: nat, k: nat)
    requires
        0 < k <= max_data_len(),
    ensures
        decode_package(zero_bits(blocks * message_len(k)), message_len(k)) == zero_bits(blocks * k),
    decreases blocks,
{
    let n = message_len(k);
    lemma_block_len_bound(k);
    vstd::arithmetic::power2::lemma_pow2_pos(parity_count(k));
    if blocks == 0 {
        assert(zero_bits(0 * n) =~= Seq::<u8>::empty());
        assert(zero_bits(0 * k) =~= Seq::<u8>::empty());
    } else {
        let all = zero_bits(blocks * n);
        assert(blocks * n == (blocks - 1) * n + n) by (nonlinear_arith);
        assert(blocks * k == (blocks - 1) * k + k) by (nonlinear_arith);
        assert((blocks - 1) * n >= 0) by (nonlinear_arith)
            requires
                blocks >= 1,
                n >= 0,
        ;
        assert(all.take(n as int) =~= zero_bits(n));
        assert(all.skip(n as int) =~= zero_bits(((blocks - 1) * n) as nat));
        lemma_decode_zero_block(k);
        lemma_decode_zero_blocks((blocks - 1) as nat, k);
        assert(zero_bits(k) + zero_bits(((blocks - 1) * k) as nat) =~= zero_bits(blocks * k));
    }
}

} // verus!
