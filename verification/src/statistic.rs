//! Counting the bytes of a source into a map.

use std::collections::HashMap;
use vstd::prelude::*;
use crate::utils::formulae::{
    encodable, lemma_encodable_concat, lemma_occurrences_concat, occurrences,
};

verus! {

/// The count of `byte` in `map`: none where it has no entry.
pub open spec fn count_of(map: Map<u8, i64>, byte: u8) -> int {
    if map.contains_key(byte) {
        map[byte] as int
    } else {
        0
    }
}

/// Counts the bytes of `buffer` from 32 on: each in its entry of `map`,
/// which starts at none, and all of them in `counter`. Lesser bytes are
/// passed over. No count goes beyond what an `i64` holds.
pub fn parse_chunk_for_unique_bytes(map: &mut HashMap<u8, i64>, buffer: &[u8], counter: &mut i64)
    requires
        forall|b: u8| #[trigger] count_of(old(map)@, b) + occurrences(buffer@, b) <= i64::MAX,
        *old(counter) + encodable(buffer@) <= i64::MAX,
    ensures
        forall|b: u8|
            #[trigger] count_of(final(map)@, b) == count_of(old(map)@, b) + (if b >= 32 {
                occurrences(buffer@, b)
            } else {
                0
            }),
        forall|b: u8|
            #[trigger] final(map)@.contains_key(b) <==> old(map)@.contains_key(b) || (b >= 32
                && occurrences(buffer@, b) > 0),
        *final(counter) == *old(counter) + encodable(buffer@),
{
    broadcast use vstd::std_specs::hash::group_hash_axioms;

    let n = buffer.len();
    let mut i: usize = 0;
    while i < n
        invariant
            i <= n,
            n == buffer.len(),
            forall|b: u8| #[trigger] count_of(old(map)@, b) + occurrences(buffer@, b) <= i64::MAX,
            *old(counter) + encodable(buffer@) <= i64::MAX,
            forall|b: u8|
                #[trigger] count_of(map@, b) == count_of(old(map)@, b) + (if b >= 32 {
                    occurrences(buffer@.take(i as int), b)
                } else {
                    0
                }),
            forall|b: u8|
                #[trigger] map@.contains_key(b) <==> old(map)@.contains_key(b) || (b >= 32
                    && occurrences(buffer@.take(i as int), b) > 0),
            *counter == *old(counter) + encodable(buffer@.take(i as int)),
        decreases n - i,
    {
        let byte = buffer[i];
        let ghost before = map@;
        proof {
            assert(buffer@.take(i + 1).drop_last() =~= buffer@.take(i as int));
            assert(buffer@ =~= buffer@.take(i + 1) + buffer@.skip(i + 1));
            lemma_occurrences_concat(buffer@.take(i + 1), buffer@.skip(i + 1), byte);
            lemma_encodable_concat(buffer@.take(i + 1), buffer@.skip(i + 1));
            assert(count_of(before, byte) == count_of(old(map)@, byte) + (if byte >= 32 {
                occurrences(buffer@.take(i as int), byte)
            } else {
                0
            }));
        }
        if byte >= 32 {
            let count = match map.get(&byte) {
                Some(count) => *count,
                None => 0,
            };
            map.insert(byte, count + 1);
            *counter += 1;
        }
        proof {
            assert forall|b: u8|
                #[trigger] count_of(map@, b) == count_of(old(map)@, b) + (if b >= 32 {
                    occurrences(buffer@.take(i + 1), b)
                } else {
                    0
                }) by {
                assert(count_of(before, b) == count_of(old(map)@, b) + (if b >= 32 {
                    occurrences(buffer@.take(i as int), b)
                } else {
                    0
                }));
            }
            assert forall|b: u8|
                #[trigger] map@.contains_key(b) <==> old(map)@.contains_key(b) || (b >= 32
                    && occurrences(buffer@.take(i + 1), b) > 0) by {
                assert(before.contains_key(b) <==> old(map)@.contains_key(b) || (b >= 32
                    && occurrences(buffer@.take(i as int), b) > 0));
            }
        }
        i += 1;
    }
    proof {
        assert(buffer@.take(n as int) =~= buffer@);
    }
}

} // verus!
