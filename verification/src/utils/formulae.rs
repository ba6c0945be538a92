//! Counting the bytes of a source.

use vstd::prelude::*;

verus! {

/// How often `byte` occurs in `buffer`.
pub open spec fn occurrences(buffer: Seq<u8>, byte: u8) -> nat
    decreases buffer.len(),
{
    if buffer.len() == 0 {
        0
    } else {
        occurrences(buffer.drop_last(), byte) + if buffer.last() == byte {
            1nat
        } else {
            0nat
        }
    }
}

/// How many bytes of `buffer` are counted: those from 32 on.
pub open spec fn encodable(buffer: Seq<u8>) -> nat
    decreases buffer.len(),
{
    if buffer.len() == 0 {
        0
    } else {
        encodable(buffer.drop_last()) + if buffer.last() >= 32 {
            1nat
        } else {
            0nat
        }
    }
}

/// A byte occurs in two buffers as often as in the first and in the second,
/// and in a buffer no more often than the buffer is long.
pub proof fn lemma_occurrences_concat(a: Seq<u8>, b: Seq<u8>, byte: u8)
    ensures
        occurrences(a + b, byte) == occurrences(a, byte) + occurrences(b, byte),
        occurrences(a, byte) <= a.len(),
    decreases a.len() + b.len(),
{
    if b.len() == 0 {
        assert(a + b =~= a);
        if a.len() > 0 {
            lemma_occurrences_concat(a.drop_last(), b, byte);
        }
    } else {
        assert((a + b).drop_last() =~= a + b.drop_last());
        lemma_occurrences_concat(a, b.drop_last(), byte);
    }
}

/// A byte that stands in a buffer occurs in it.
pub proof fn lemma_occurs(buffer: Seq<u8>, i: int)
    requires
        0 <= i < buffer.len(),
    ensures
        occurrences(buffer, buffer[i]) >= 1,
    decreases buffer.len(),
{
    if i < buffer.len() - 1 {
        lemma_occurs(buffer.drop_last(), i);
    }
}

/// A buffer that holds counted bytes holds a byte from 32 on.
pub proof fn lemma_encodable_exists(buffer: Seq<u8>) -> (i: int)
    requires
        encodable(buffer) > 0,
    ensures
        0 <= i < buffer.len(),
        buffer[i] >= 32,
    decreases buffer.len(),
{
    if buffer.last() >= 32 {
        buffer.len() - 1
    } else {
        lemma_encodable_exists(buffer.drop_last())
    }
}

/// Two buffers hold as many counted bytes as the first and the second, and
/// a buffer no more than it is long.
pub proof fn lemma_encodable_concat(a: Seq<u8>, b: Seq<u8>)
    ensures
        encodable(a + b) == encodable(a) + encodable(b),
        encodable(a) <= a.len(),
    decreases a.len() + b.len(),
{
    if b.len() == 0 {
        assert(a + b =~= a);
        if a.len() > 0 {
            lemma_encodable_concat(a.drop_last(), b);
        }
    } else {
        assert((a + b).drop_last() =~= a + b.drop_last());
        lemma_encodable_concat(a, b.drop_last());
    }
}

/// Counts the bytes of `buffer` from 32 on: each in its place in
/// `dictionary`, and all of them in `counter`. Lesser bytes are passed over.
/// No count goes beyond what a `u64` holds.
pub fn parse_chunk_for_unique_bytes(dictionary: &mut [u64; 256], buffer: &[u8], counter: &mut u64)
    requires
        forall|b: int|
            0 <= b < 256 ==> #[trigger] old(dictionary)@[b] + occurrences(buffer@, b as u8)
                <= u64::MAX,
        *old(counter) + encodable(buffer@) <= u64::MAX,
    ensures
        forall|b: int|
            0 <= b < 256 ==> (#[trigger] final(dictionary)@[b]) == old(dictionary)@[b] + (if b
                >= 32 {
                occurrences(buffer@, b as u8)
            } else {
                0
            }),
        *final(counter) == *old(counter) + encodable(buffer@),
{
    let n = buffer.len();
    let mut i: usize = 0;
    while i < n
        invariant
            i <= n,
            n == buffer.len(),
            forall|b: int|
                0 <= b < 256 ==> #[trigger] old(dictionary)@[b] + occurrences(buffer@, b as u8)
                    <= u64::MAX,
            *old(counter) + encodable(buffer@) <= u64::MAX,
            forall|b: int|
                0 <= b < 256 ==> (#[trigger] dictionary@[b]) == old(dictionary)@[b] + (if b
                    >= 32 {
                    occurrences(buffer@.take(i as int), b as u8)
                } else {
                    0
                }),
            *counter == *old(counter) + encodable(buffer@.take(i as int)),
        decreases n - i,
    {
        let byte = buffer[i];
        proof {
            assert(buffer@.take(i + 1).drop_last() =~= buffer@.take(i as int));
            assert(buffer@ =~= buffer@.take(i + 1) + buffer@.skip(i + 1));
            lemma_occurrences_concat(buffer@.take(i + 1), buffer@.skip(i + 1), byte);
            lemma_encodable_concat(buffer@.take(i + 1), buffer@.skip(i + 1));
        }
        if byte >= 32 {
            dictionary[byte as usize] += 1;
            *counter += 1;
        }
        i += 1;
    }
    proof {
        assert(buffer@.take(n as int) =~= buffer@);
    }
}

} // verus!
