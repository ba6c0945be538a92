//! Counting, the archive format and what goes with them.

use vstd::prelude::*;
use crate::types::FileStats;
use crate::utils::constants::DEFAULT_BUFFER_SIZE;
use crate::utils::formulae::{encodable, lemma_encodable_concat, lemma_occurrences_concat, occurrences, parse_chunk_for_unique_bytes};

pub mod constants;
pub mod formulae;
pub mod logic;
pub mod naming;
pub mod round_trip;
pub mod terminal;
pub mod trie;

verus! {

/// How often each byte value from 32 on occurs in `file`, and how many such
/// bytes it holds. The file is read in chunks of the buffer size.
pub fn parse_file(file: &[u8]) -> (stats: FileStats)
    ensures
        forall|b: int|
            0 <= b < 256 ==> (#[trigger] stats.0@[b]) == (if b >= 32 {
                occurrences(file@, b as u8)
            } else {
                0
            }),
        stats.1 == encodable(file@),
{
    let mut dictionary: [u64; 256] = [0;256];
    let mut file_size: u64 = 0;
    let mut position: usize = 0;
    let len = file.len();
    while position < len
        invariant
            position <= len,
            len == file.len(),
            forall|b: int|
                0 <= b < 256 ==> (#[trigger] dictionary@[b]) == (if b >= 32 {
                    occurrences(file@.take(position as int), b as u8)
                } else {
                    0
                }),
            file_size == encodable(file@.take(position as int)),
        decreases len - position,
    {
        let end = if len - position > DEFAULT_BUFFER_SIZE {
            position + DEFAULT_BUFFER_SIZE
        } else {
            len
        };
        let chunk = &file[position..end];
        proof {
            assert(file@.take(end as int) =~= file@.take(position as int) + chunk@);
            lemma_encodable_concat(file@.take(position as int), chunk@);
            lemma_encodable_concat(file@.take(end as int), Seq::empty());
            assert forall|b: u8|
                occurrences(file@.take(end as int), b) == occurrences(
                    file@.take(position as int),
                    b,
                ) + #[trigger] occurrences(chunk@, b) && occurrences(file@.take(end as int), b)
                    <= end by {
                lemma_occurrences_concat(file@.take(position as int), chunk@, b);
                lemma_occurrences_concat(file@.take(end as int), Seq::empty(), b);
            }
            assert(forall|b: int|
                0 <= b < 256 ==> #[trigger] dictionary@[b] + occurrences(chunk@, b as u8)
                    <= u64::MAX);
        }
        parse_chunk_for_unique_bytes(&mut dictionary, chunk, &mut file_size);
        position = end;
    }
    proof {
        assert(file@.take(len as int) =~= file@);
    }
    (dictionary, file_size)
}

} // verus!
